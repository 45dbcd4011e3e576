//! The status-protocol parser: the line-oriented text that the management
//! endpoint returns for the `status` command is split into lines, the lines
//! tagged `CLIENT_LIST` are split on tabs into fixed-position fields, and the
//! fields become client records. One malformed client line aborts the whole
//! parse, the same as a connection failure would.
use vstd::prelude::*;
use vstd::string::StrSliceExecFns;
use vstd::string::StringExecFns;
use crate::controller::PollError;
use crate::records::{
    ClientData, ClientRecord, insert_record, roster_insert, roster_view, sentinel_identity,
    unique_identities,
};

verus! {

/// Splitting `s` on every occurrence of `sep`, as `str::split` does: the
/// result always has one more piece than there are separators, and empty
/// pieces are kept.
pub open spec fn split_on(s: Seq<char>, sep: char) -> Seq<Seq<char>>
    decreases s.len(),
{
    if s.len() == 0 {
        seq![s]
    } else if s[0] == sep {
        seq![Seq::<char>::empty()] + split_on(s.drop_first(), sep)
    } else {
        let rest = split_on(s.drop_first(), sep);
        seq![seq![s[0]] + rest[0]] + rest.drop_first()
    }
}

/// A split always yields at least one piece.
pub proof fn lemma_split_on_len(s: Seq<char>, sep: char)
    ensures
        split_on(s, sep).len() >= 1,
    decreases s.len(),
{
    if s.len() == 0 {
    } else if s[0] == sep {
    } else {
        lemma_split_on_len(s.drop_first(), sep)
    }
}

/// How a split unfolds at the first separator: if no separator occurs before
/// position `j`, the first piece runs up to `j`, and the remaining pieces are
/// the split of what follows the separator.
pub proof fn lemma_split_on_first_piece(s: Seq<char>, sep: char, j: int)
    requires
        0 <= j <= s.len(),
        forall|t: int| 0 <= t < j ==> s[t] != sep,
    ensures
        j == s.len() ==> split_on(s, sep) == seq![s],
        j < s.len() && s[j] == sep ==> split_on(s, sep) == seq![s.take(j)] + split_on(
            s.skip(j + 1),
            sep,
        ),
    decreases j,
{
    if j == 0 {
        if 0 == s.len() {
        } else if s[0] == sep {
            assert(s.take(0) =~= Seq::<char>::empty());
            assert(s.drop_first() =~= s.skip(1));
            assert(split_on(s, sep) =~= seq![s.take(0)] + split_on(s.skip(1), sep));
        }
    } else {
        let s2 = s.drop_first();
        assert(forall|t: int| 0 <= t < j - 1 ==> s2[t] != sep);
        lemma_split_on_first_piece(s2, sep, j - 1);
        let rest = split_on(s2, sep);
        if j == s.len() {
            assert(rest == seq![s2]);
            assert(seq![s[0]] + rest[0] =~= s);
            assert(split_on(s, sep) =~= seq![s]);
        } else if s[j] == sep {
            assert(s2[j - 1] == sep);
            assert(rest == seq![s2.take(j - 1)] + split_on(s2.skip(j), sep));
            assert(rest[0] == s2.take(j - 1));
            assert(seq![s[0]] + s2.take(j - 1) =~= s.take(j));
            assert(s2.skip(j) =~= s.skip(j + 1));
            assert(rest.drop_first() =~= split_on(s2.skip(j), sep));
            assert(split_on(s, sep) =~= seq![s.take(j)] + split_on(s.skip(j + 1), sep));
        }
    }
}

/// The views of a vector of owned pieces.
pub open spec fn pieces_view(v: Seq<String>) -> Seq<Seq<char>> {
    v.map_values(|p: String| p@)
}

/// Splits `s` on every occurrence of `sep` into owned pieces.
pub fn split_str(s: &str, sep: char) -> (r: Vec<String>)
    ensures
        pieces_view(r@) == split_on(s@, sep),
{
    let n = s.unicode_len();
    let mut pieces: Vec<String> = Vec::new();
    let mut start: usize = 0;
    let mut j: usize = 0;
    assert(pieces_view(pieces@) =~= Seq::<Seq<char>>::empty());
    assert(s@.skip(0) =~= s@);
    loop
        invariant_except_break
            0 <= start <= j <= n,
            n == s@.len(),
            forall|t: int| start <= t < j ==> s@[t] != sep,
            split_on(s@, sep) == pieces_view(pieces@) + split_on(s@.skip(start as int), sep),
        ensures
            pieces_view(pieces@) == split_on(s@, sep),
        decreases n - j,
    {
        let at_end = j == n;
        let hit = if at_end {
            true
        } else {
            s.get_char(j) == sep
        };
        if hit {
            let piece = String::from_str(s.substring_char(start, j));
            let ghost prev = pieces_view(pieces@);
            let ghost tail = s@.skip(start as int);
            proof {
                assert(forall|t: int|
                    0 <= t < j - start ==> tail[t] == s@[t + start] && tail[t] != sep);
                lemma_split_on_first_piece(tail, sep, j - start);
            }
            pieces.push(piece);
            proof {
                assert(pieces_view(pieces@) =~= prev.push(s@.subrange(start as int, j as int)));
                assert(tail.take(j - start) =~= s@.subrange(start as int, j as int));
            }
            if at_end {
                proof {
                    assert(tail =~= tail.take(j - start));
                    assert(split_on(s@, sep) =~= pieces_view(pieces@));
                }
                break ;
            }
            proof {
                assert(tail.skip(j - start + 1) =~= s@.skip(j + 1));
                assert(split_on(s@, sep) =~= pieces_view(pieces@) + split_on(s@.skip(j + 1), sep));
            }
            start = j + 1;
            j = j + 1;
        } else {
            j = j + 1;
        }
    }
    pieces
}

/// Character-wise string equality.
pub fn str_eq(a: &str, b: &str) -> (r: bool)
    ensures
        r == (a@ == b@),
{
    let na = a.unicode_len();
    let nb = b.unicode_len();
    if na != nb {
        return false;
    }
    let mut i: usize = 0;
    while i < na
        invariant
            0 <= i <= na,
            na == a@.len(),
            na == b@.len(),
            forall|t: int| 0 <= t < i ==> a@[t] == b@[t],
        decreases na - i,
    {
        if a.get_char(i) != b.get_char(i) {
            return false;
        }
        i += 1;
    }
    assert(a@ =~= b@);
    true
}

/// A trailing carriage return left over from a CRLF line ending, removed.
pub open spec fn strip_cr(l: Seq<char>) -> Seq<char> {
    if l.len() > 0 && l.last() == '\r' {
        l.drop_last()
    } else {
        l
    }
}

/// Removes one trailing carriage return, if any.
pub fn strip_cr_str<'a>(s: &'a str) -> (r: &'a str)
    ensures
        r@ == strip_cr(s@),
{
    let n = s.unicode_len();
    if n > 0 && s.get_char(n - 1) == '\r' {
        let r = s.substring_char(0, n - 1);
        assert(r@ =~= s@.drop_last());
        r
    } else {
        s
    }
}

/// Whether `c` is a decimal digit.
pub open spec fn is_digit(c: char) -> bool {
    '0' <= c && c <= '9'
}

/// The numeric value of a decimal digit.
pub open spec fn digit_val(c: char) -> int {
    c as int - '0' as int
}

/// Whether every character of `s` is a decimal digit.
pub open spec fn all_digits(s: Seq<char>) -> bool {
    forall|i: int| 0 <= i < s.len() ==> is_digit(s[i])
}

/// The value of a run of decimal digits, most significant first.
pub open spec fn digits_val(s: Seq<char>) -> int
    decreases s.len(),
{
    if s.len() == 0 {
        0
    } else {
        digits_val(s.drop_last()) * 10 + digit_val(s.last())
    }
}

/// A run of digits has a non-negative value.
pub proof fn lemma_digits_val_nonneg(s: Seq<char>)
    requires
        all_digits(s),
    ensures
        digits_val(s) >= 0,
    decreases s.len(),
{
    if s.len() > 0 {
        assert(all_digits(s.drop_last()));
        lemma_digits_val_nonneg(s.drop_last());
    }
}

/// Extending a digit run never decreases its value.
pub proof fn lemma_digits_val_prefix(s: Seq<char>, k: int)
    requires
        all_digits(s),
        0 <= k <= s.len(),
    ensures
        digits_val(s.take(k)) <= digits_val(s),
    decreases s.len(),
{
    if k == s.len() {
        assert(s.take(k) =~= s);
    } else {
        let d = s.drop_last();
        assert(all_digits(d));
        assert(s.take(k) =~= d.take(k));
        lemma_digits_val_prefix(d, k);
        lemma_digits_val_nonneg(d);
    }
}

/// The value of `s` as an unsigned decimal integer: every character a digit,
/// at least one of them, and the value representable.
pub open spec fn spec_parse_u64(s: Seq<char>) -> Option<u64> {
    if s.len() > 0 && all_digits(s) && digits_val(s) <= u64::MAX as int {
        Some(digits_val(s) as u64)
    } else {
        None
    }
}

/// The value of `s` as a signed decimal integer with an optional leading
/// sign, rejected when not representable.
pub open spec fn spec_parse_i64(s: Seq<char>) -> Option<i64> {
    if s.len() == 0 {
        None
    } else if s[0] == '-' {
        let d = s.drop_first();
        if d.len() > 0 && all_digits(d) && -digits_val(d) >= i64::MIN as int {
            Some((-digits_val(d)) as i64)
        } else {
            None
        }
    } else if s[0] == '+' {
        let d = s.drop_first();
        if d.len() > 0 && all_digits(d) && digits_val(d) <= i64::MAX as int {
            Some(digits_val(d) as i64)
        } else {
            None
        }
    } else if all_digits(s) && digits_val(s) <= i64::MAX as int {
        Some(digits_val(s) as i64)
    } else {
        None
    }
}

/// Parses an unsigned decimal field.
pub fn parse_u64_field(s: &str) -> (r: Option<u64>)
    ensures
        r == spec_parse_u64(s@),
{
    let n = s.unicode_len();
    if n == 0 {
        return None;
    }
    let mut acc: u64 = 0;
    let mut i: usize = 0;
    assert(s@.take(0) =~= Seq::<char>::empty());
    while i < n
        invariant
            0 <= i <= n,
            n == s@.len(),
            all_digits(s@.take(i as int)),
            acc == digits_val(s@.take(i as int)),
        decreases n - i,
    {
        let c = s.get_char(i);
        let cv = c as u32;
        if cv < 48 || cv > 57 {
            assert(!is_digit(s@[i as int]));
            assert(!all_digits(s@));
            return None;
        }
        let d = (cv - 48) as u64;
        assert(is_digit(s@[i as int]) && d == digit_val(s@[i as int]));
        let wide: u128 = acc as u128 * 10 + d as u128;
        proof {
            assert(s@.take(i + 1).drop_last() =~= s@.take(i as int));
            assert(s@.take(i + 1).last() == s@[i as int]);
            assert(digits_val(s@.take(i + 1)) == acc * 10 + d);
        }
        if wide > u64::MAX as u128 {
            proof {
                if all_digits(s@) {
                    lemma_digits_val_prefix(s@, i + 1);
                }
            }
            return None;
        }
        acc = wide as u64;
        i += 1;
    }
    assert(s@.take(n as int) =~= s@);
    Some(acc)
}

/// Parses a signed decimal field.
pub fn parse_i64_field(s: &str) -> (r: Option<i64>)
    ensures
        r == spec_parse_i64(s@),
{
    let n = s.unicode_len();
    if n == 0 {
        return None;
    }
    let c0 = s.get_char(0);
    if c0 == '-' {
        let rest = s.substring_char(1, n);
        assert(rest@ =~= s@.drop_first());
        match parse_u64_field(rest) {
            None => {
                proof {
                    if rest@.len() > 0 && all_digits(rest@) {
                        assert(digits_val(rest@) > u64::MAX as int);
                    }
                }
                None
            },
            Some(m) => {
                proof {
                    lemma_digits_val_nonneg(rest@);
                    assert(digits_val(rest@) == m as int);
                }
                if m <= i64::MAX as u64 {
                    Some(-(m as i64))
                } else if m == 9223372036854775808u64 {
                    Some(i64::MIN)
                } else {
                    None
                }
            },
        }
    } else if c0 == '+' {
        let rest = s.substring_char(1, n);
        assert(rest@ =~= s@.drop_first());
        match parse_u64_field(rest) {
            None => {
                proof {
                    if rest@.len() > 0 && all_digits(rest@) {
                        assert(digits_val(rest@) > u64::MAX as int);
                    }
                }
                None
            },
            Some(m) => {
                proof {
                    lemma_digits_val_nonneg(rest@);
                    assert(digits_val(rest@) == m as int);
                }
                if m <= i64::MAX as u64 {
                    Some(m as i64)
                } else {
                    None
                }
            },
        }
    } else {
        match parse_u64_field(s) {
            None => {
                proof {
                    if s@.len() > 0 && all_digits(s@) {
                        assert(digits_val(s@) > u64::MAX as int);
                    }
                }
                None
            },
            Some(m) => {
                proof {
                    lemma_digits_val_nonneg(s@);
                    assert(digits_val(s@) == m as int);
                }
                if m <= i64::MAX as u64 {
                    Some(m as i64)
                } else {
                    None
                }
            },
        }
    }
}

/// Whether a line is a client record: it starts with the record tag
/// `CLIENT_LIST`.
pub open spec fn is_client_line(l: Seq<char>) -> bool {
    l.len() >= "CLIENT_LIST"@.len() && l.take("CLIENT_LIST"@.len() as int) == "CLIENT_LIST"@
}

/// Tests a line for the client record tag.
pub fn has_client_tag(s: &str) -> (r: bool)
    ensures
        r == is_client_line(s@),
{
    proof {
        reveal_strlit("CLIENT_LIST");
    }
    let tag = "CLIENT_LIST";
    let n = s.unicode_len();
    if n < 11 {
        return false;
    }
    let prefix = s.substring_char(0, 11);
    assert(prefix@ =~= s@.take(11));
    str_eq(prefix, tag)
}

/// The record carried by one client line, read by fixed tab-separated field
/// position: field 1 the identity, field 2 the address (host portion before
/// the first colon), fields 5 and 6 the byte counters, field 8 the session
/// start as epoch seconds. `None` when the line has fewer than nine fields or
/// a numeric field does not parse.
pub open spec fn spec_parse_client_line(line: Seq<char>) -> Option<ClientData> {
    let fields = split_on(line, '\t');
    if fields.len() < 9 {
        None
    } else {
        match (spec_parse_u64(fields[5]), spec_parse_u64(fields[6]), spec_parse_i64(fields[8])) {
            (Some(br), Some(bs), Some(ts)) => Some(
                ClientData {
                    identity: fields[1],
                    network_address: split_on(fields[2], ':')[0],
                    connected_since: ts as int,
                    bytes_received: br as int,
                    bytes_sent: bs as int,
                },
            ),
            _ => None,
        }
    }
}

/// Parses one client line into a record.
pub fn parse_client_line(line: &str) -> (r: Option<ClientRecord>)
    ensures
        match r {
            Some(c) => spec_parse_client_line(line@) == Some(c@),
            None => spec_parse_client_line(line@) is None,
        },
{
    let fields = split_str(line, '\t');
    let ghost fv = split_on(line@, '\t');
    assert(fields@.len() == fv.len());
    if fields.len() < 9 {
        return None;
    }
    assert(fields@[5]@ == fv[5] && fields@[6]@ == fv[6] && fields@[8]@ == fv[8]);
    assert(fields@[1]@ == fv[1] && fields@[2]@ == fv[2]);
    let bytes_received = match parse_u64_field(fields[5].as_str()) {
        Some(v) => v,
        None => {
            return None;
        },
    };
    let bytes_sent = match parse_u64_field(fields[6].as_str()) {
        Some(v) => v,
        None => {
            return None;
        },
    };
    let connected_since = match parse_i64_field(fields[8].as_str()) {
        Some(v) => v,
        None => {
            return None;
        },
    };
    let identity = fields[1].clone();
    let addr_parts = split_str(fields[2].as_str(), ':');
    proof {
        lemma_split_on_len(fv[2], ':');
        assert(addr_parts@[0]@ == split_on(fv[2], ':')[0]);
    }
    let network_address = addr_parts[0].clone();
    Some(
        ClientRecord {
            identity,
            network_address,
            connected_since,
            bytes_received,
            bytes_sent,
        },
    )
}

/// The lines of a status response: the text split on newlines, each with a
/// trailing carriage return removed, so both LF and CRLF responses read the
/// same.
pub open spec fn status_lines(s: Seq<char>) -> Seq<Seq<char>> {
    split_on(s, '\n').map_values(|l: Seq<char>| strip_cr(l))
}

/// The roster that a sequence of lines yields: client lines parsed in order,
/// records bearing the sentinel identity dropped, a later duplicate identity
/// overwriting the earlier record; `None` when any client line is malformed.
pub open spec fn roster_of_lines(lines: Seq<Seq<char>>) -> Option<Seq<ClientData>>
    decreases lines.len(),
{
    if lines.len() == 0 {
        Some(Seq::<ClientData>::empty())
    } else {
        match roster_of_lines(lines.drop_last()) {
            None => None,
            Some(r) => {
                if !is_client_line(lines.last()) {
                    Some(r)
                } else {
                    match spec_parse_client_line(lines.last()) {
                        None => None,
                        Some(c) => {
                            if c.identity == sentinel_identity() {
                                Some(r)
                            } else {
                                Some(insert_record(r, c))
                            }
                        },
                    }
                }
            },
        }
    }
}

/// The roster that a whole status response yields, or `None` when some client
/// line of it is malformed.
pub open spec fn spec_parse_status(s: Seq<char>) -> Option<Seq<ClientData>> {
    roster_of_lines(status_lines(s))
}

/// A prefix with a malformed client line makes the whole sequence malformed.
proof fn lemma_roster_none_extends(lines: Seq<Seq<char>>, k: int)
    requires
        0 <= k <= lines.len(),
        roster_of_lines(lines.take(k)) is None,
    ensures
        roster_of_lines(lines) is None,
    decreases lines.len() - k,
{
    if k == lines.len() {
        assert(lines.take(k) =~= lines);
    } else {
        assert(lines.take(k + 1).drop_last() =~= lines.take(k));
        lemma_roster_none_extends(lines, k + 1);
    }
}

/// Parses a whole status response into a roster. The roster is free of
/// duplicate identities; one malformed client line fails the whole poll.
pub fn parse_status(s: &str) -> (r: Result<Vec<ClientRecord>, PollError>)
    ensures
        match r {
            Ok(v) => {
                &&& spec_parse_status(s@) == Some(roster_view(v@))
                &&& unique_identities(roster_view(v@))
            },
            Err(e) => spec_parse_status(s@) is None && e is MalformedResponse,
        },
{
    let lines = split_str(s, '\n');
    let ghost lv = status_lines(s@);
    assert(lv.len() == lines@.len());
    let mut roster: Vec<ClientRecord> = Vec::new();
    let mut i: usize = 0;
    assert(lv.take(0) =~= Seq::<Seq<char>>::empty());
    assert(roster_view(roster@) =~= Seq::<ClientData>::empty());
    while i < lines.len()
        invariant
            0 <= i <= lines@.len(),
            lv == status_lines(s@),
            lv.len() == lines@.len(),
            pieces_view(lines@) == split_on(s@, '\n'),
            roster_of_lines(lv.take(i as int)) == Some(roster_view(roster@)),
            unique_identities(roster_view(roster@)),
        decreases lines@.len() - i,
    {
        let line = strip_cr_str(lines[i].as_str());
        assert(line@ == strip_cr(pieces_view(lines@)[i as int]));
        assert(line@ == lv[i as int]);
        proof {
            assert(lv.take(i + 1).drop_last() =~= lv.take(i as int));
            assert(lv.take(i + 1).last() == lv[i as int]);
        }
        if has_client_tag(line) {
            match parse_client_line(line) {
                None => {
                    proof {
                        assert(roster_of_lines(lv.take(i + 1)) is None);
                        lemma_roster_none_extends(lv, i + 1);
                    }
                    return Err(PollError::MalformedResponse);
                },
                Some(c) => {
                    let ghost cd = c@;
                    if !str_eq(c.identity.as_str(), "UNDEF") {
                        roster_insert(&mut roster, c);
                        assert(roster_of_lines(lv.take(i + 1)) == Some(roster_view(roster@)));
                    } else {
                        assert(cd.identity == sentinel_identity());
                        assert(roster_of_lines(lv.take(i + 1)) == Some(roster_view(roster@)));
                    }
                },
            }
        } else {
            assert(roster_of_lines(lv.take(i + 1)) == Some(roster_view(roster@)));
        }
        i += 1;
    }
    assert(lv.take(lines@.len() as int) =~= lv);
    Ok(roster)
}

} // verus!

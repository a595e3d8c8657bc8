//! Cleaning the head of an HTTP request before it is forwarded, and reading the
//! `Content-Length` of a request or response head.

use vstd::prelude::*;

use vstd::utf8::{decode_utf8, valid_utf8};

use crate::text::{
    chars_of, contains_char, crlf, has_crlf, lemma_split_crlf_join_then, lemma_split_crlf_piece_then,
    lemma_split_crlf_pieces, join_crlf, lemma_no_cr_no_crlf, lemma_parse_decimal, lemma_decimal_digits,
    lemma_trim_space_digits, decimal, is_digit, parse_usize, parse_usize_range, push_chars, split_crlf,
    split_crlf_exec, trim, trim_range, views,
};

verus! {

/// Marker extracted from every request; accepting a request never fails.
pub struct HeaderParse;

/// Why a head cannot be forwarded.
#[derive(Debug, PartialEq, Eq, Structural)]
pub enum HeaderError {
    /// The head splits into fewer than three lines, so it has no request line
    /// followed by the blank line that ends a head.
    MissingHeadEnd,
    /// A `Content-Length` header whose value is not a `usize`.
    InvalidContentLength,
}

/// A request head ready to be forwarded, with the length of the body that follows it.
#[derive(Debug)]
pub struct ForwardRequest {
    pub head: String,
    pub content_length: usize,
}

/// A header line is legal when it holds a `:` and no `;`.
pub open spec fn is_legal_header(line: Seq<char>) -> bool {
    line.contains(':') && !line.contains(';')
}

/// The legal lines of `lines`, in their order.
pub open spec fn legal_headers(lines: Seq<Seq<char>>) -> Seq<Seq<char>>
    decreases lines.len(),
{
    if lines.len() == 0 {
        Seq::<Seq<char>>::empty()
    } else if is_legal_header(lines.last()) {
        legal_headers(lines.drop_last()).push(lines.last())
    } else {
        legal_headers(lines.drop_last())
    }
}

/// `"content-length"`.
pub open spec fn content_length_name() -> Seq<char> {
    seq!['c', 'o', 'n', 't', 'e', 'n', 't', '-', 'l', 'e', 'n', 'g', 't', 'h']
}

/// Whether `c`, lowered if it is an ASCII capital, is `t`.
pub open spec fn lowers_to(c: char, t: char) -> bool {
    c == t || ('A' <= c && c <= 'Z' && (c as u32) + 32 == (t as u32))
}

/// Whether the line, lowercased, starts with `content-length`. Only ASCII capitals
/// lower to the letters of that name, so comparing the first fourteen characters
/// case-insensitively on ASCII is the same test.
pub open spec fn is_content_length_line(line: Seq<char>) -> bool {
    line.len() >= 14 && forall|i: int|
        0 <= i < 14 ==> #[trigger] lowers_to(line[i], content_length_name()[i])
}

/// What follows the first `:` of the line, if there is one.
pub open spec fn after_first_colon(line: Seq<char>) -> Option<Seq<char>>
    decreases line.len(),
{
    if line.len() == 0 {
        None
    } else if line[0] == ':' {
        Some(line.drop_first())
    } else {
        after_first_colon(line.drop_first())
    }
}

/// `s` up to its first `:`.
pub open spec fn up_to_colon(s: Seq<char>) -> Seq<char>
    decreases s.len(),
{
    if s.len() == 0 {
        s
    } else if s[0] == ':' {
        Seq::<char>::empty()
    } else {
        seq![s[0]] + up_to_colon(s.drop_first())
    }
}

/// The second `:`-separated field of a header line, trimmed and read as `usize`;
/// `None` where the line has no `:` or the field is no number.
pub open spec fn header_number(line: Seq<char>) -> Option<usize> {
    match after_first_colon(line) {
        Some(rest) => parse_usize(trim(up_to_colon(rest))),
        None => None,
    }
}

/// The body length that the `Content-Length` lines among `lines` announce: that of the
/// last one, 0 where there is none, `None` where one of them holds no number.
pub open spec fn content_length_of(lines: Seq<Seq<char>>) -> Option<usize>
    decreases lines.len(),
{
    if lines.len() == 0 {
        Some(0)
    } else if is_content_length_line(lines.last()) {
        match (content_length_of(lines.drop_last()), header_number(lines.last())) {
            (Some(_), Some(n)) => Some(n),
            _ => None,
        }
    } else {
        content_length_of(lines.drop_last())
    }
}

/// The header lines of a raw head: the lines between the request line and the two
/// empty pieces that the closing `"\r\n\r\n"` leaves.
pub open spec fn request_header_lines(raw: Seq<char>) -> Seq<Seq<char>> {
    let lines = split_crlf(raw);
    lines.subrange(1, lines.len() - 2)
}

/// The lines, each followed by `"\r\n"`.
pub open spec fn crlf_terminated(lines: Seq<Seq<char>>) -> Seq<char>
    decreases lines.len(),
{
    if lines.len() == 0 {
        Seq::<char>::empty()
    } else {
        crlf_terminated(lines.drop_last()) + lines.last() + crlf()
    }
}

/// The head that is forwarded: the request line and the legal header lines, each
/// line closed by `"\r\n"`, then the blank line `"\r\n"` that ends the head.
pub open spec fn forwarded_head(raw: Seq<char>) -> Seq<char> {
    split_crlf(raw)[0] + crlf() + crlf_terminated(legal_headers(request_header_lines(raw)))
        + crlf()
}

/// Lines each closed by `"\r\n"` are the lines joined by `"\r\n"` and one more.
pub proof fn lemma_crlf_terminated_is_joined(lines: Seq<Seq<char>>)
    requires
        lines.len() >= 1,
    ensures
        crlf_terminated(lines) == join_crlf(lines) + crlf(),
    decreases lines.len(),
{
    if lines.len() == 1 {
        assert(lines.drop_last() =~= Seq::<Seq<char>>::empty());
        assert(crlf_terminated(lines.drop_last()) =~= Seq::<char>::empty());
        assert(crlf_terminated(lines) =~= lines[0] + crlf());
    } else {
        lemma_crlf_terminated_is_joined(lines.drop_last());
        assert(crlf_terminated(lines) =~= join_crlf(lines) + crlf());
    }
}

/// What forwarding a raw head gives: the cleaned head and the body length, or why
/// there is none.
pub open spec fn forward_outcome(raw: Seq<char>) -> Result<(Seq<char>, usize), HeaderError> {
    if split_crlf(raw).len() < 3 {
        Err(HeaderError::MissingHeadEnd)
    } else {
        match content_length_of(legal_headers(request_header_lines(raw))) {
            Some(n) => Ok((forwarded_head(raw), n)),
            None => Err(HeaderError::InvalidContentLength),
        }
    }
}

/// Every kept line is legal, and a property that all lines have, the kept ones have.
pub proof fn lemma_legal_headers_kept(lines: Seq<Seq<char>>)
    ensures
        forall|j: int|
            0 <= j < legal_headers(lines).len() ==> is_legal_header(#[trigger] legal_headers(lines)[j]),
        forall|j: int|
            0 <= j < legal_headers(lines).len() ==> exists|i: int|
                0 <= i < lines.len() && lines[i] == #[trigger] legal_headers(lines)[j],
    decreases lines.len(),
{
    if lines.len() > 0 {
        let init = lines.drop_last();
        lemma_legal_headers_kept(init);
        let k = legal_headers(init);
        assert forall|j: int| 0 <= j < legal_headers(lines).len() implies exists|i: int|
            0 <= i < lines.len() && lines[i] == #[trigger] legal_headers(lines)[j] by {
            if j < k.len() {
                let i = choose|i: int| 0 <= i < init.len() && init[i] == #[trigger] k[j];
                assert(lines[i] == init[i]);
                assert(legal_headers(lines)[j] == k[j]);
            } else {
                assert(lines[lines.len() - 1] == legal_headers(lines)[j]);
            }
        }
    }
}

/// Lines that are all legal are all kept.
pub proof fn lemma_legal_headers_all_legal(lines: Seq<Seq<char>>)
    requires
        forall|i: int| 0 <= i < lines.len() ==> is_legal_header(#[trigger] lines[i]),
    ensures
        legal_headers(lines) == lines,
    decreases lines.len(),
{
    if lines.len() > 0 {
        lemma_legal_headers_all_legal(lines.drop_last());
        assert(lines.drop_last().push(lines.last()) =~= lines);
    }
}

/// Forwarding a forwarded head changes nothing: its request line and headers come
/// back as they were, no further header is dropped, and the body length is the same.
pub proof fn lemma_forwarding_is_idempotent(raw: Seq<char>)
    requires
        forward_outcome(raw) is Ok,
    ensures
        forward_outcome(forward_outcome(raw)->Ok_0.0) == forward_outcome(raw),
{
    let lines = split_crlf(raw);
    lemma_split_crlf_pieces(raw);
    let first = lines[0];
    let middle = request_header_lines(raw);
    let kept = legal_headers(middle);
    let n = content_length_of(kept)->Some_0;
    let head = forwarded_head(raw);
    assert(!has_crlf(first));
    lemma_legal_headers_kept(middle);
    assert forall|j: int| 0 <= j < kept.len() implies !has_crlf(#[trigger] kept[j]) by {
        let i = choose|i: int| 0 <= i < middle.len() && middle[i] == #[trigger] kept[j];
        assert(middle[i] == lines[i + 1]);
    }
    let e = Seq::<char>::empty();
    assert(!has_crlf(e));
    lemma_split_crlf_piece_then(e, e);
    assert(e + crlf() + e =~= crlf());
    assert(split_crlf(e) == seq![e]);
    assert(split_crlf(crlf()) == seq![e, e]);
    if kept.len() == 0 {
        assert(crlf_terminated(kept) =~= e);
        lemma_split_crlf_piece_then(first, crlf());
        assert(head =~= first + crlf() + crlf());
        assert(split_crlf(head) =~= seq![first, e, e]);
        assert(request_header_lines(head) =~= Seq::<Seq<char>>::empty());
        assert(forwarded_head(head) =~= head);
    } else {
        lemma_crlf_terminated_is_joined(kept);
        lemma_split_crlf_join_then(kept, crlf());
        lemma_split_crlf_piece_then(first, join_crlf(kept) + crlf() + crlf());
        assert(head =~= first + crlf() + (join_crlf(kept) + crlf() + crlf()));
        assert(split_crlf(head) =~= seq![first] + kept + seq![e, e]);
        assert(request_header_lines(head) =~= kept);
        lemma_legal_headers_all_legal(kept);
        assert(forwarded_head(head) =~= head);
    }
}

/// `content-length` in small letters.
pub open spec fn content_length_lower() -> Seq<char> {
    seq!['c', 'o', 'n', 't', 'e', 'n', 't', '-', 'l', 'e', 'n', 'g', 't', 'h']
}

/// `CONTENT-LENGTH` in capitals.
pub open spec fn content_length_upper() -> Seq<char> {
    seq!['C', 'O', 'N', 'T', 'E', 'N', 'T', '-', 'L', 'E', 'N', 'G', 'T', 'H']
}

/// The header `name: n`, the decimal digits of `n` after a colon and a space.
pub open spec fn numbered_header(name: Seq<char>, n: usize) -> Seq<char> {
    name + seq![':', ' '] + decimal(n as nat)
}

proof fn lemma_after_first_colon_append(p: Seq<char>, s: Seq<char>)
    requires
        !p.contains(':'),
    ensures
        after_first_colon(p + s) == after_first_colon(s),
    decreases p.len(),
{
    if p.len() == 0 {
        assert(p + s =~= s);
    } else {
        assert(p.contains(p[0]));
        let q = p.drop_first();
        assert(!q.contains(':')) by {
            if q.contains(':') {
                let i = choose|i: int| 0 <= i < q.len() && q[i] == ':';
                assert(p[i + 1] == ':');
            }
        }
        assert((p + s).drop_first() =~= q + s);
        lemma_after_first_colon_append(q, s);
    }
}

proof fn lemma_up_to_colon_whole(s: Seq<char>)
    requires
        !s.contains(':'),
    ensures
        up_to_colon(s) == s,
    decreases s.len(),
{
    if s.len() > 0 {
        assert(s.contains(s[0]));
        let q = s.drop_first();
        assert(!q.contains(':')) by {
            if q.contains(':') {
                let i = choose|i: int| 0 <= i < q.len() && q[i] == ':';
                assert(s[i + 1] == ':');
            }
        }
        lemma_up_to_colon_whole(q);
        assert(seq![s[0]] + q =~= s);
    }
}

/// What a `Content-Length: n` line in any mix of case is made of, and what it is
/// read as.
proof fn lemma_content_length_header(pre: Seq<char>, n: usize)
    requires
        pre.len() == 14,
        forall|i: int|
            0 <= i < 14 ==> #[trigger] pre[i] == content_length_lower()[i] || pre[i]
                == content_length_upper()[i],
    ensures
        is_content_length_line(numbered_header(pre, n)),
        header_number(numbered_header(pre, n)) == Some(n),
        numbered_header(pre, n).contains(':'),
        !numbered_header(pre, n).contains(';'),
        !has_crlf(numbered_header(pre, n)),
        numbered_header(pre, n)[0] == 'c' || numbered_header(pre, n)[0] == 'C',
{
    let lower = content_length_lower();
    let upper = content_length_upper();
    let d = decimal(n as nat);
    lemma_decimal_digits(n as nat);
    let h = numbered_header(pre, n);
    assert(pre[0] == lower[0] || pre[0] == upper[0]);
    assert forall|i: int| 0 <= i < 14 implies #[trigger] pre[i] != ':' && pre[i] != ';'
        && pre[i] != '\r' && lowers_to(pre[i], content_length_name()[i]) by {
        assert(pre[i] == lower[i] || pre[i] == upper[i]);
        assert(content_length_name()[i] == lower[i]);
        if i == 0 || i == 1 || i == 2 || i == 3 || i == 4 || i == 5 || i == 6 {
            assert(('C' as u32) + 32 == ('c' as u32));
            assert(('O' as u32) + 32 == ('o' as u32));
            assert(('N' as u32) + 32 == ('n' as u32));
            assert(('T' as u32) + 32 == ('t' as u32));
            assert(('E' as u32) + 32 == ('e' as u32));
        } else {
            assert(('L' as u32) + 32 == ('l' as u32));
            assert(('E' as u32) + 32 == ('e' as u32));
            assert(('N' as u32) + 32 == ('n' as u32));
            assert(('G' as u32) + 32 == ('g' as u32));
            assert(('T' as u32) + 32 == ('t' as u32));
            assert(('H' as u32) + 32 == ('h' as u32));
        }
    }
    assert(h =~= pre + (seq![':'] + (seq![' '] + d)));
    assert(h =~= pre + (seq![':'] + (seq![' '] + d)));
    assert(!pre.contains(':'));
    lemma_after_first_colon_append(pre, seq![':'] + (seq![' '] + d));
    assert((seq![':'] + (seq![' '] + d))[0] == ':');
    assert((seq![':'] + (seq![' '] + d)).drop_first() =~= seq![' '] + d);
    assert(after_first_colon(h) == Some(seq![' '] + d));
    assert(!(seq![' '] + d).contains(':')) by {
        if (seq![' '] + d).contains(':') {
            let i = choose|i: int| 0 <= i < (seq![' '] + d).len() && (seq![' '] + d)[i] == ':';
            assert(is_digit(d[i - 1]));
        }
    }
    lemma_up_to_colon_whole(seq![' '] + d);
    lemma_trim_space_digits(d);
    lemma_parse_decimal(n);
    assert(h[14] == ':');
    assert(!h.contains(';')) by {
        if h.contains(';') {
            let i = choose|i: int| 0 <= i < h.len() && h[i] == ';';
            if i >= 16 {
                assert(is_digit(d[i - 16]));
            } else if i < 14 {
                assert(h[i] == pre[i]);
            }
        }
    }
    assert forall|i: int| 0 <= i < h.len() implies #[trigger] h[i] != '\r' by {
        if i >= 16 {
            assert(is_digit(d[i - 16]));
        } else if i < 14 {
            assert(h[i] == pre[i]);
        }
    }
    lemma_no_cr_no_crlf(h);
    assert forall|i: int| 0 <= i < 14 implies #[trigger] lowers_to(h[i], content_length_name()[i]) by {
        assert(h[i] == pre[i]);
    }
}

/// A request line, one header line and the closing blank line split into four pieces.
proof fn lemma_split_one_header(first: Seq<char>, h: Seq<char>)
    requires
        !has_crlf(first),
        !has_crlf(h),
    ensures
        split_crlf(first + crlf() + h + crlf() + crlf()) == seq![
            first,
            h,
            Seq::<char>::empty(),
            Seq::<char>::empty(),
        ],
{
    let e = Seq::<char>::empty();
    assert(!has_crlf(e));
    lemma_split_crlf_piece_then(e, e);
    assert(e + crlf() + e =~= crlf());
    assert(split_crlf(e) == seq![e]);
    lemma_split_crlf_piece_then(h, crlf());
    lemma_split_crlf_piece_then(first, h + crlf() + crlf());
    assert(first + crlf() + h + crlf() + crlf() =~= first + crlf() + (h + crlf() + crlf()));
    assert(split_crlf(first + crlf() + h + crlf() + crlf()) =~= seq![first, h, e, e]);
}

/// Law: a header line is forwarded exactly when it holds a `:` and no `;`, whatever
/// else it holds; a dropped line leaves the request line and the closing blank line.
pub proof fn law_header_kept_exactly_when_colon_without_semicolon(
    request_line: Seq<char>,
    header: Seq<char>,
)
    requires
        !has_crlf(request_line),
        !has_crlf(header),
        header.len() > 0,
        header[0] != 'c',
        header[0] != 'C',
    ensures
        forward_outcome(request_line + crlf() + header + crlf() + crlf()) == Ok::<
            (Seq<char>, usize),
            HeaderError,
        >(
            (
                if header.contains(':') && !header.contains(';') {
                    request_line + crlf() + header + crlf() + crlf()
                } else {
                    request_line + crlf() + crlf()
                },
                0usize,
            ),
        ),
{
    let raw = request_line + crlf() + header + crlf() + crlf();
    lemma_split_one_header(request_line, header);
    let hs = seq![header];
    assert(request_header_lines(raw) =~= hs);
    assert(hs.last() == header);
    assert(hs.drop_last() =~= Seq::<Seq<char>>::empty());
    assert(!lowers_to(header[0], content_length_name()[0]));
    assert(!is_content_length_line(header));
    let kept = legal_headers(hs);
    if is_legal_header(header) {
        assert(kept == legal_headers(hs.drop_last()).push(header));
        assert(kept =~= hs);
        assert(content_length_of(kept) == content_length_of(kept.drop_last()));
        assert(kept.drop_last() =~= Seq::<Seq<char>>::empty());
        assert(crlf_terminated(kept) == crlf_terminated(kept.drop_last()) + kept.last() + crlf());
        assert(crlf_terminated(kept.drop_last()) =~= Seq::<char>::empty());
        assert(forwarded_head(raw) =~= raw);
    } else {
        assert(kept == legal_headers(hs.drop_last()));
        assert(legal_headers(hs.drop_last()) == Seq::<Seq<char>>::empty());
        assert(kept =~= Seq::<Seq<char>>::empty());
        assert(content_length_of(kept) == Some(0usize));
        assert(crlf_terminated(kept) =~= Seq::<char>::empty());
        assert(forwarded_head(raw) =~= request_line + crlf() + crlf());
    }
}

/// Law: every `usize` written on a `Content-Length` line, its name in any mix of case,
/// is the body length read back, for a request and for a response alike.
pub proof fn law_content_length_line_gives_its_number(
    first_line: Seq<char>,
    name: Seq<char>,
    n: usize,
)
    requires
        !has_crlf(first_line),
        first_line.len() == 0 || (first_line[0] != 'c' && first_line[0] != 'C'),
        name.len() == 14,
        forall|i: int|
            0 <= i < 14 ==> #[trigger] name[i] == content_length_lower()[i] || name[i]
                == content_length_upper()[i],
    ensures
        forward_outcome(first_line + crlf() + numbered_header(name, n) + crlf() + crlf()) == Ok::<
            (Seq<char>, usize),
            HeaderError,
        >((first_line + crlf() + numbered_header(name, n) + crlf() + crlf(), n)),
        content_length_of(
            split_crlf(first_line + crlf() + numbered_header(name, n) + crlf() + crlf()),
        ) == Some(n),
{
    let h = numbered_header(name, n);
    let raw = first_line + crlf() + h + crlf() + crlf();
    let e = Seq::<char>::empty();
    lemma_content_length_header(name, n);
    lemma_split_one_header(first_line, h);
    let hs = seq![h];
    assert(request_header_lines(raw) =~= hs);
    assert(hs.last() == h);
    assert(hs.drop_last() =~= Seq::<Seq<char>>::empty());
    assert(legal_headers(hs) == legal_headers(hs.drop_last()).push(h));
    assert(legal_headers(hs) =~= hs);
    assert(content_length_of(hs.drop_last()) == Some(0usize));
    assert(content_length_of(hs) == Some(n));
    assert(crlf_terminated(hs) == crlf_terminated(hs.drop_last()) + h + crlf());
    assert(crlf_terminated(hs.drop_last()) =~= e);
    assert(forwarded_head(raw) =~= raw);
    // the response side reads every line
    let all = seq![first_line, h, e, e];
    assert(!is_content_length_line(e));
    if first_line.len() > 0 {
        assert(!lowers_to(first_line[0], content_length_name()[0]));
    }
    assert(!is_content_length_line(first_line));
    assert(all.drop_last() =~= seq![first_line, h, e]);
    assert(all.drop_last().drop_last() =~= seq![first_line, h]);
    assert(seq![first_line, h].drop_last() =~= seq![first_line]);
    assert(seq![first_line].drop_last() =~= Seq::<Seq<char>>::empty());
    assert(seq![first_line].last() == first_line);
    assert(content_length_of(Seq::<Seq<char>>::empty()) == Some(0usize));
    assert(content_length_of(seq![first_line]) == Some(0usize));
    assert(seq![first_line, h].last() == h);
    assert(seq![first_line, h, e].last() == e);
    assert(all.last() == e);
    assert(content_length_of(seq![first_line, h]) == Some(n));
    assert(content_length_of(seq![first_line, h, e]) == Some(n));
    assert(content_length_of(all) == Some(n));
}

proof fn lemma_content_length_skips_line(p: Seq<Seq<char>>, h: Seq<char>, s: Seq<Seq<char>>)
    requires
        !is_content_length_line(h),
    ensures
        content_length_of(p + seq![h] + s) == content_length_of(p + s),
    decreases s.len(),
{
    if s.len() == 0 {
        assert((p + seq![h] + s).drop_last() =~= p);
        assert((p + seq![h] + s).last() == h);
        assert(p + s =~= p);
    } else {
        lemma_content_length_skips_line(p, h, s.drop_last());
        assert((p + seq![h] + s).drop_last() =~= p + seq![h] + s.drop_last());
        assert((p + s).drop_last() =~= p + s.drop_last());
        assert((p + seq![h] + s).last() == s.last());
        assert((p + s).last() == s.last());
    }
}

/// Law: a header line whose first fourteen characters do not spell `content-length`
/// in any mix of case (such as `Content-Type`) leaves the body length of a head as it
/// would be without that line.
pub proof fn law_other_headers_leave_content_length(
    status_line: Seq<char>,
    header: Seq<char>,
    rest: Seq<char>,
)
    requires
        !has_crlf(status_line),
        !has_crlf(header),
        header.len() < 14 || exists|i: int|
            0 <= i < 14 && #[trigger] header[i] != content_length_lower()[i] && header[i]
                != content_length_upper()[i],
    ensures
        content_length_of(split_crlf(status_line + crlf() + header + crlf() + rest))
            == content_length_of(split_crlf(status_line + crlf() + rest)),
{
    let lower = content_length_lower();
    let upper = content_length_upper();
    if header.len() >= 14 {
        let i = choose|i: int|
            0 <= i < 14 && #[trigger] header[i] != lower[i] && header[i] != upper[i];
        assert(content_length_name() =~= lower);
        let c = header[i];
        assert(!lowers_to(c, lower[i])) by {
            if 'A' <= c && c <= 'Z' && (c as u32) + 32 == (lower[i] as u32) {
                assert(c as u32 == upper[i] as u32);
            }
        }
    }
    assert(!is_content_length_line(header));
    lemma_split_crlf_piece_then(header, rest);
    lemma_split_crlf_piece_then(status_line, header + crlf() + rest);
    lemma_split_crlf_piece_then(status_line, rest);
    assert(status_line + crlf() + header + crlf() + rest =~= status_line + crlf() + (header
        + crlf() + rest));
    let r = split_crlf(rest);
    assert(split_crlf(status_line + crlf() + header + crlf() + rest) =~= seq![status_line]
        + seq![header] + r);
    lemma_content_length_skips_line(seq![status_line], header, r);
}

fn is_legal_header_exec(line: &Vec<char>) -> (r: bool)
    ensures
        r == is_legal_header(line@),
{
    contains_char(line, ':') && !contains_char(line, ';')
}

fn is_content_length_line_exec(line: &Vec<char>) -> (r: bool)
    ensures
        r == is_content_length_line(line@),
{
    let name: Vec<char> = vec!['c', 'o', 'n', 't', 'e', 'n', 't', '-', 'l', 'e', 'n', 'g', 't', 'h'];
    assert(name@ =~= content_length_name());
    if line.len() < 14 {
        return false;
    }
    let mut i: usize = 0;
    while i < 14
        invariant
            line@.len() >= 14,
            name@ == content_length_name(),
            i <= 14,
            forall|j: int| 0 <= j < i ==> #[trigger] lowers_to(line@[j], content_length_name()[j]),
        decreases 14 - i,
    {
        let c = line[i];
        let t = name[i];
        if !(c == t || ('A' <= c && c <= 'Z' && (c as u32) + 32 == (t as u32))) {
            assert(!lowers_to(line@[i as int], content_length_name()[i as int]));
            return false;
        }
        i = i + 1;
    }
    true
}

/// The value of a header line as `header_number` reads it.
fn header_number_exec(line: &Vec<char>) -> (r: Option<usize>)
    ensures
        r == header_number(line@),
{
    let n = line.len();
    let mut p: usize = 0;
    assert(line@.skip(0) =~= line@);
    while p < n && line[p] != ':'
        invariant
            n == line@.len(),
            p <= n,
            after_first_colon(line@) == after_first_colon(line@.skip(p as int)),
        decreases n - p,
    {
        assert(line@.skip(p as int).drop_first() =~= line@.skip(p + 1));
        p = p + 1;
    }
    if p == n {
        assert(line@.skip(n as int) =~= Seq::<char>::empty());
        return None;
    }
    let ghost rest = line@.skip(p + 1);
    assert(line@.skip(p as int).drop_first() =~= rest);
    let mut q: usize = p + 1;
    assert(rest =~= line@.subrange(p + 1, q as int) + line@.skip(q as int));
    while q < n && line[q] != ':'
        invariant
            n == line@.len(),
            p < q <= n,
            rest == line@.skip(p + 1),
            up_to_colon(rest) == line@.subrange(p + 1, q as int) + up_to_colon(line@.skip(q as int)),
        decreases n - q,
    {
        let ghost t = line@.skip(q as int);
        assert(t.drop_first() =~= line@.skip(q + 1));
        assert(line@.subrange(p + 1, q as int) + (seq![t[0]] + up_to_colon(t.drop_first()))
            =~= line@.subrange(p + 1, q + 1) + up_to_colon(line@.skip(q + 1)));
        q = q + 1;
    }
    assert(up_to_colon(line@.skip(q as int)) =~= Seq::<char>::empty());
    assert(up_to_colon(rest) =~= line@.subrange(p + 1, q as int));
    let (lo, hi) = trim_range(line, p + 1, q);
    parse_usize_range(line, lo, hi)
}

/// The `Content-Length` that `lines` announce, as `content_length_of` gives it.
fn content_length_exec(lines: &Vec<Vec<char>>) -> (r: Option<usize>)
    ensures
        r == content_length_of(views(lines@)),
{
    let n = lines.len();
    let mut acc: Option<usize> = Some(0);
    let mut i: usize = 0;
    while i < n
        invariant
            n == lines@.len(),
            i <= n,
            acc == content_length_of(views(lines@).take(i as int)),
        decreases n - i,
    {
        assert(views(lines@).take(i + 1).drop_last() =~= views(lines@).take(i as int));
        assert(views(lines@).take(i + 1).last() == lines@[i as int]@);
        if is_content_length_line_exec(&lines[i]) {
            let v = header_number_exec(&lines[i]);
            acc = match (acc, v) {
                (Some(_), Some(x)) => Some(x),
                _ => None,
            };
        }
        i = i + 1;
    }
    assert(views(lines@).take(n as int) =~= views(lines@));
    acc
}

/// The legal lines among `lines[from..to]`.
fn legal_lines_exec(lines: &Vec<Vec<char>>, from: usize, to: usize) -> (r: Vec<Vec<char>>)
    requires
        from <= to <= lines@.len(),
    ensures
        views(r@) == legal_headers(views(lines@).subrange(from as int, to as int)),
{
    let mut kept: Vec<Vec<char>> = Vec::new();
    let mut i: usize = from;
    while i < to
        invariant
            from <= i <= to <= lines@.len(),
            views(kept@) == legal_headers(views(lines@).subrange(from as int, i as int)),
        decreases to - i,
    {
        let ghost sub = views(lines@).subrange(from as int, i + 1);
        assert(sub.drop_last() =~= views(lines@).subrange(from as int, i as int));
        assert(sub.last() == lines@[i as int]@);
        let ghost before = views(kept@);
        if is_legal_header_exec(&lines[i]) {
            kept.push(lines[i].clone());
            assert(views(kept@) =~= before.push(lines@[i as int]@));
        }
        i = i + 1;
    }
    kept
}

/// Appends the lines to `out`, each followed by `"\r\n"`.
fn push_terminated(out: &mut String, lines: &Vec<Vec<char>>)
    ensures
        final(out)@ == old(out)@ + crlf_terminated(views(lines@)),
{
    let n = lines.len();
    let mut i: usize = 0;
    while i < n
        invariant
            n == lines@.len(),
            i <= n,
            out@ == old(out)@ + crlf_terminated(views(lines@).take(i as int)),
        decreases n - i,
    {
        let ghost t = views(lines@).take(i + 1);
        assert(t.drop_last() =~= views(lines@).take(i as int));
        assert(t.last() == lines@[i as int]@);
        push_chars(out, &lines[i]);
        out.push('\r');
        out.push('\n');
        assert(out@ =~= old(out)@ + crlf_terminated(t));
        i = i + 1;
    }
    assert(views(lines@).take(n as int) =~= views(lines@));
}

/// Cleans the head of a request before it is forwarded.
///
/// The head is split at `"\r\n"`; the first piece is the request line and the last two
/// are the empty pieces that the closing blank line leaves. Of the header lines between
/// them only those with a `:` and no `;` are kept. The forwarded head is the request
/// line and the kept lines, each closed by `"\r\n"`, then the blank line `"\r\n"`;
/// with no line kept that is the request line followed by `"\r\n\r\n"`. The body length
/// is the value of the last kept `Content-Length` line, or 0.
pub fn forward_request(raw: &str) -> (r: Result<ForwardRequest, HeaderError>)
    ensures
        match (r, forward_outcome(raw@)) {
            (Ok(f), Ok((head, n))) => f.head@ == head && f.content_length == n,
            (Err(e), Err(e2)) => e == e2,
            _ => false,
        },
{
    let cs = chars_of(raw);
    let lines = split_crlf_exec(&cs);
    let ghost all = views(lines@);
    if lines.len() < 3 {
        return Err(HeaderError::MissingHeadEnd);
    }
    let kept = legal_lines_exec(&lines, 1, lines.len() - 2);
    let n = match content_length_exec(&kept) {
        Some(n) => n,
        None => {
            return Err(HeaderError::InvalidContentLength);
        },
    };
    let mut head = String::new();
    push_chars(&mut head, &lines[0]);
    head.push('\r');
    head.push('\n');
    push_terminated(&mut head, &kept);
    head.push('\r');
    head.push('\n');
    assert(head@ =~= forwarded_head(raw@));
    Ok(ForwardRequest { head, content_length: n })
}

/// The body length that a response head announces: the value of its last
/// `Content-Length` line, or 0 where it has none.
pub fn response_content_length(head: &str) -> (r: Result<usize, HeaderError>)
    ensures
        match content_length_of(split_crlf(head@)) {
            Some(n) => r == Ok::<usize, HeaderError>(n),
            None => r == Err::<usize, HeaderError>(HeaderError::InvalidContentLength),
        },
{
    let cs = chars_of(head);
    let lines = split_crlf_exec(&cs);
    match content_length_exec(&lines) {
        Some(n) => Ok(n),
        None => Err(HeaderError::InvalidContentLength),
    }
}

/// Whether reading a head stops after a line read of `count` bytes: a line of fewer
/// than three bytes (the blank `"\r\n"`, or nothing at the end of the stream) ends it.
pub fn head_complete(count: usize) -> (r: bool)
    ensures
        r == (count < 3),
{
    count < 3
}

/// Name for what `String::from_utf8_lossy` makes of the bytes: their UTF-8 decoding,
/// with U+FFFD in place of each invalid sequence.
pub uninterp spec fn utf8_lossy(bytes: Seq<u8>) -> Seq<char>;

/// Calls `String::from_utf8_lossy`. Claimed: the result is `utf8_lossy` of the bytes,
/// and where the bytes are valid UTF-8 it is their decoding.
#[verifier::external_body]
fn decode_utf8_lossy(bytes: &[u8]) -> (r: String)
    ensures
        r@ == utf8_lossy(bytes@),
        valid_utf8(bytes@) ==> r@ == decode_utf8(bytes@),
{
    String::from_utf8_lossy(bytes).into_owned()
}

/// A message made of a head and the body read after it, the body decoded as UTF-8
/// with invalid sequences replaced.
pub fn attach_body(head: &str, body: &[u8]) -> (r: String)
    ensures
        r@ == head@ + utf8_lossy(body@),
        valid_utf8(body@) ==> r@ == head@ + decode_utf8(body@),
{
    let text = decode_utf8_lossy(body);
    let mut out = String::new();
    out.append(head);
    out.append(text.as_str());
    out
}

} // verus!

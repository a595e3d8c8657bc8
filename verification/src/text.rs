//! Character-level text helpers shared by the rest of the library.

use vstd::prelude::*;

verus! {

/// `String::push` appends one character at the end of the string.
pub assume_specification[ String::push ](s: &mut String, ch: char)
    ensures
        final(s)@ == old(s)@.push(ch),
;

/// The characters of `s`, in order.
pub fn chars_of(s: &str) -> (r: Vec<char>)
    ensures
        r@ == s@,
{
    let n = s.unicode_len();
    let mut out: Vec<char> = Vec::new();
    let mut i: usize = 0;
    while i < n
        invariant
            n == s@.len(),
            i <= n,
            out@ == s@.take(i as int),
        decreases n - i,
    {
        let c = s.get_char(i);
        out.push(c);
        i = i + 1;
        assert(out@ =~= s@.take(i as int));
    }
    assert(out@ =~= s@);
    out
}

/// The character sequences held by a list of character vectors.
pub open spec fn views(v: Seq<Vec<char>>) -> Seq<Seq<char>> {
    v.map_values(|l: Vec<char>| l@)
}

/// `s` split at every `"\r\n"`, scanning from the left, as `str::split("\r\n")` does:
/// a text with `k` separators gives `k + 1` pieces, empty ones included.
pub open spec fn split_crlf(s: Seq<char>) -> Seq<Seq<char>>
    decreases s.len(),
{
    if s.len() == 0 {
        seq![Seq::<char>::empty()]
    } else if s.len() >= 2 && s[0] == '\r' && s[1] == '\n' {
        seq![Seq::<char>::empty()] + split_crlf(s.skip(2))
    } else {
        let rest = split_crlf(s.drop_first());
        rest.update(0, seq![s[0]] + rest[0])
    }
}

/// `pieces` with `head` put in front of its first piece.
pub open spec fn prefix_first(head: Seq<char>, pieces: Seq<Seq<char>>) -> Seq<Seq<char>> {
    pieces.update(0, head + pieces[0])
}

pub proof fn lemma_split_crlf_nonempty(s: Seq<char>)
    ensures
        split_crlf(s).len() >= 1,
    decreases s.len(),
{
    if s.len() == 0 {
    } else if s.len() >= 2 && s[0] == '\r' && s[1] == '\n' {
        lemma_split_crlf_nonempty(s.skip(2));
    } else {
        lemma_split_crlf_nonempty(s.drop_first());
    }
}

/// Whether `s` holds the separator `"\r\n"`.
pub open spec fn has_crlf(s: Seq<char>) -> bool {
    exists|i: int| 0 <= i < s.len() - 1 && #[trigger] s[i] == '\r' && s[i + 1] == '\n'
}

/// The first piece of a split is a prefix of the text, and no piece holds a separator.
pub proof fn lemma_split_crlf_pieces(s: Seq<char>)
    ensures
        split_crlf(s).len() >= 1,
        split_crlf(s)[0].len() <= s.len(),
        split_crlf(s)[0] == s.take(split_crlf(s)[0].len() as int),
        forall|i: int| 0 <= i < split_crlf(s).len() ==> !has_crlf(#[trigger] split_crlf(s)[i]),
    decreases s.len(),
{
    if s.len() == 0 {
        assert(s.take(0) =~= Seq::<char>::empty());
    } else if s.len() >= 2 && s[0] == '\r' && s[1] == '\n' {
        lemma_split_crlf_pieces(s.skip(2));
        let r = split_crlf(s.skip(2));
        assert(s.take(0) =~= Seq::<char>::empty());
        assert forall|i: int| 0 <= i < split_crlf(s).len() implies !has_crlf(
            #[trigger] split_crlf(s)[i],
        ) by {
            if i > 0 {
                assert(split_crlf(s)[i] == r[i - 1]);
            }
        }
    } else {
        let t = s.drop_first();
        lemma_split_crlf_pieces(t);
        let rest = split_crlf(t);
        let p0 = seq![s[0]] + rest[0];
        assert(p0 =~= s.take(p0.len() as int));
        assert forall|i: int| 0 <= i < split_crlf(s).len() implies !has_crlf(
            #[trigger] split_crlf(s)[i],
        ) by {
            if i == 0 {
                if has_crlf(p0) {
                    let k = choose|k: int| 0 <= k < p0.len() - 1 && #[trigger] p0[k] == '\r' && p0[k + 1] == '\n';
                    if k == 0 {
                        assert(p0[1] == s[1]);
                    } else {
                        assert(rest[0][k - 1] == '\r' && rest[0][k] == '\n');
                    }
                }
            } else {
                assert(split_crlf(s)[i] == rest[i]);
            }
        }
    }
}

/// A piece without separator, a separator, then the rest: the piece comes first.
pub proof fn lemma_split_crlf_piece_then(p: Seq<char>, t: Seq<char>)
    requires
        !has_crlf(p),
    ensures
        split_crlf(p + crlf() + t) == seq![p] + split_crlf(t),
    decreases p.len(),
{
    let s = p + crlf() + t;
    if p.len() == 0 {
        assert(s.skip(2) =~= t);
        assert(s[0] == '\r' && s[1] == '\n');
        assert(p =~= Seq::<char>::empty());
        assert(split_crlf(s) == seq![Seq::<char>::empty()] + split_crlf(s.skip(2)));
    } else {
        let q = p.drop_first();
        assert(!has_crlf(q)) by {
            if has_crlf(q) {
                let k = choose|k: int| 0 <= k < q.len() - 1 && #[trigger] q[k] == '\r' && q[k + 1] == '\n';
                assert(p[k + 1] == '\r' && p[k + 2] == '\n');
            }
        }
        lemma_split_crlf_piece_then(q, t);
        assert(s.drop_first() =~= q + crlf() + t);
        if p.len() >= 2 {
            assert(!(p[0] == '\r' && p[1] == '\n'));
            assert(s[1] == p[1]);
        } else {
            assert(s[1] == '\r');
        }
        let rest = split_crlf(s.drop_first());
        assert(rest == seq![q] + split_crlf(t));
        assert(split_crlf(s) == rest.update(0, seq![s[0]] + rest[0]));
        assert(seq![s[0]] + q =~= p);
        assert(rest.update(0, seq![s[0]] + rest[0]) =~= seq![p] + split_crlf(t));
    }
}

/// Pieces without separators, joined, then a separator and the rest: the pieces come
/// back first.
pub proof fn lemma_split_crlf_join_then(ps: Seq<Seq<char>>, t: Seq<char>)
    requires
        ps.len() >= 1,
        forall|i: int| 0 <= i < ps.len() ==> !has_crlf(#[trigger] ps[i]),
    ensures
        split_crlf(join_crlf(ps) + crlf() + t) == ps + split_crlf(t),
    decreases ps.len(),
{
    if ps.len() == 1 {
        lemma_split_crlf_piece_then(ps[0], t);
        assert(seq![ps[0]] =~= ps);
    } else {
        let init = ps.drop_last();
        let last = ps.last();
        assert(!has_crlf(last));
        lemma_split_crlf_piece_then(last, t);
        lemma_split_crlf_join_then(init, last + crlf() + t);
        assert(join_crlf(ps) + crlf() + t =~= join_crlf(init) + crlf() + (last + crlf() + t));
        assert(init + (seq![last] + split_crlf(t)) =~= ps + split_crlf(t));
    }
}

proof fn lemma_join_crlf_cons(a: Seq<char>, r: Seq<Seq<char>>)
    requires
        r.len() >= 1,
    ensures
        join_crlf(seq![a] + r) == a + crlf() + join_crlf(r),
    decreases r.len(),
{
    let ps = seq![a] + r;
    if r.len() == 1 {
        assert(ps.drop_last() =~= seq![a]);
        assert(ps.last() == r[0]);
        assert(join_crlf(r) == r[0]);
        assert(seq![a][0] == a);
        assert(join_crlf(seq![a]) == a);
        assert(join_crlf(ps) == join_crlf(ps.drop_last()) + crlf() + ps.last());
    } else {
        lemma_join_crlf_cons(a, r.drop_last());
        assert(ps.drop_last() =~= seq![a] + r.drop_last());
        assert(ps.last() == r.last());
        assert(join_crlf(ps) =~= a + crlf() + join_crlf(r));
    }
}

proof fn lemma_join_crlf_prefix_first(x: Seq<char>, ps: Seq<Seq<char>>)
    requires
        ps.len() >= 1,
    ensures
        join_crlf(ps.update(0, x + ps[0])) == x + join_crlf(ps),
    decreases ps.len(),
{
    let qs = ps.update(0, x + ps[0]);
    if ps.len() == 1 {
        assert(join_crlf(qs) == qs[0]);
    } else {
        lemma_join_crlf_prefix_first(x, ps.drop_last());
        assert(qs.drop_last() =~= ps.drop_last().update(0, x + ps.drop_last()[0]));
        assert(qs.last() == ps.last());
        assert(join_crlf(qs) =~= x + join_crlf(ps));
    }
}

/// Law: joining the pieces of a split with `"\r\n"` gives back the text, and no piece
/// holds a `"\r\n"`; together these fix what splitting at `"\r\n"` gives.
pub proof fn law_split_crlf_then_join(s: Seq<char>)
    ensures
        join_crlf(split_crlf(s)) == s,
        forall|i: int| 0 <= i < split_crlf(s).len() ==> !has_crlf(#[trigger] split_crlf(s)[i]),
    decreases s.len(),
{
    lemma_split_crlf_pieces(s);
    if s.len() == 0 {
    } else if s.len() >= 2 && s[0] == '\r' && s[1] == '\n' {
        let t = s.skip(2);
        law_split_crlf_then_join(t);
        lemma_split_crlf_nonempty(t);
        lemma_join_crlf_cons(Seq::<char>::empty(), split_crlf(t));
        assert(Seq::<char>::empty() + crlf() + t =~= s);
    } else {
        let t = s.drop_first();
        law_split_crlf_then_join(t);
        lemma_split_crlf_nonempty(t);
        lemma_join_crlf_prefix_first(seq![s[0]], split_crlf(t));
        assert(seq![s[0]] + t =~= s);
    }
}

/// The pieces of `s` between the separators `"\r\n"`.
pub fn split_crlf_exec(s: &Vec<char>) -> (r: Vec<Vec<char>>)
    ensures
        views(r@) == split_crlf(s@),
{
    let n = s.len();
    let mut done: Vec<Vec<char>> = Vec::new();
    let mut cur: Vec<char> = Vec::new();
    let mut i: usize = 0;
    proof {
        lemma_split_crlf_nonempty(s@);
        assert(s@.skip(0) =~= s@);
        assert(prefix_first(Seq::<char>::empty(), split_crlf(s@)) =~= split_crlf(s@));
    }
    while i < n
        invariant
            n == s@.len(),
            i <= n,
            split_crlf(s@) == views(done@) + prefix_first(
                cur@,
                split_crlf(s@.skip(i as int)),
            ),
        decreases n - i,
    {
        let ghost old_done = views(done@);
        let ghost old_cur = cur@;
        proof {
            lemma_split_crlf_nonempty(s@.skip(i as int));
        }
        if i + 1 < n && s[i] == '\r' && s[i + 1] == '\n' {
            let piece = cur;
            done.push(piece);
            cur = Vec::new();
            proof {
                let t = s@.skip(i as int);
                assert(t.skip(2) =~= s@.skip(i + 2));
                lemma_split_crlf_nonempty(s@.skip(i + 2));
                let r2 = split_crlf(s@.skip(i + 2));
                assert(split_crlf(t) == seq![Seq::<char>::empty()] + r2);
                assert(prefix_first(old_cur, split_crlf(t)) =~= seq![old_cur] + r2);
                assert(prefix_first(Seq::<char>::empty(), r2) =~= r2);
                assert(views(done@) =~= old_done.push(old_cur));
            }
            i = i + 2;
        } else {
            let c = s[i];
            cur.push(c);
            proof {
                let t = s@.skip(i as int);
                assert(t.drop_first() =~= s@.skip(i + 1));
                lemma_split_crlf_nonempty(s@.skip(i + 1));
                let r1 = split_crlf(s@.skip(i + 1));
                assert(t[0] == c);
                assert(t.len() >= 2 ==> t[1] == s@[i + 1]);
                assert(!(t.len() >= 2 && t[0] == '\r' && t[1] == '\n'));
                assert(split_crlf(t) == r1.update(0, seq![c] + r1[0]));
                assert(old_cur + (seq![c] + r1[0]) =~= old_cur.push(c) + r1[0]);
                assert(prefix_first(old_cur, split_crlf(t)) =~= prefix_first(old_cur.push(c), r1));
                assert(views(done@) =~= old_done);
            }
            i = i + 1;
        }
    }
    let ghost before = views(done@);
    let ghost last = cur@;
    proof {
        assert(s@.skip(n as int) =~= Seq::<char>::empty());
        assert(prefix_first(last, split_crlf(s@.skip(n as int))) =~= seq![last]);
    }
    done.push(cur);
    assert(views(done@) =~= before.push(last));
    done
}

/// Appends the characters `cs` to `out`.
pub fn push_chars(out: &mut String, cs: &Vec<char>)
    ensures
        final(out)@ == old(out)@ + cs@,
{
    let n = cs.len();
    let mut i: usize = 0;
    while i < n
        invariant
            n == cs@.len(),
            i <= n,
            out@ == old(out)@ + cs@.take(i as int),
        decreases n - i,
    {
        out.push(cs[i]);
        i = i + 1;
        assert(out@ =~= old(out)@ + cs@.take(i as int));
    }
    assert(cs@.take(n as int) =~= cs@);
}

/// Appends the characters of `s` to `out`.
pub fn push_str(out: &mut String, s: &str)
    ensures
        final(out)@ == old(out)@ + s@,
{
    out.append(s);
}

/// `"\r\n"`.
pub open spec fn crlf() -> Seq<char> {
    seq!['\r', '\n']
}

/// The pieces joined with `"\r\n"` between consecutive ones, as `[&str]::join("\r\n")`.
pub open spec fn join_crlf(pieces: Seq<Seq<char>>) -> Seq<char>
    decreases pieces.len(),
{
    if pieces.len() == 0 {
        Seq::<char>::empty()
    } else if pieces.len() == 1 {
        pieces[0]
    } else {
        join_crlf(pieces.drop_last()) + crlf() + pieces.last()
    }
}

/// Whether `s` holds the character `c`.
pub fn contains_char(s: &Vec<char>, c: char) -> (r: bool)
    ensures
        r == s@.contains(c),
{
    let n = s.len();
    let mut i: usize = 0;
    while i < n
        invariant
            n == s@.len(),
            i <= n,
            forall|j: int| 0 <= j < i ==> s@[j] != c,
        decreases n - i,
    {
        if s[i] == c {
            assert(s@[i as int] == c);
            return true;
        }
        i = i + 1;
    }
    false
}

/// Unicode `White_Space`, as `char::is_whitespace` tests it.
pub open spec fn is_whitespace(c: char) -> bool {
    ||| ('\t' <= c && c <= '\r')
    ||| c == ' '
    ||| c == '\u{85}'
    ||| c == '\u{a0}'
    ||| c == '\u{1680}'
    ||| ('\u{2000}' <= c && c <= '\u{200a}')
    ||| c == '\u{2028}'
    ||| c == '\u{2029}'
    ||| c == '\u{202f}'
    ||| c == '\u{205f}'
    ||| c == '\u{3000}'
}

pub fn is_whitespace_exec(c: char) -> (r: bool)
    ensures
        r == is_whitespace(c),
{
    ('\t' <= c && c <= '\r') || c == ' ' || c == '\u{85}' || c == '\u{a0}' || c == '\u{1680}'
        || ('\u{2000}' <= c && c <= '\u{200a}') || c == '\u{2028}' || c == '\u{2029}' || c
        == '\u{202f}' || c == '\u{205f}' || c == '\u{3000}'
}

/// `s` without its leading white space.
pub open spec fn trim_start(s: Seq<char>) -> Seq<char>
    decreases s.len(),
{
    if s.len() > 0 && is_whitespace(s[0]) {
        trim_start(s.drop_first())
    } else {
        s
    }
}

/// `s` without its trailing white space.
pub open spec fn trim_end(s: Seq<char>) -> Seq<char>
    decreases s.len(),
{
    if s.len() > 0 && is_whitespace(s.last()) {
        trim_end(s.drop_last())
    } else {
        s
    }
}

/// `s` without white space at either end, as `str::trim` gives it.
pub open spec fn trim(s: Seq<char>) -> Seq<char> {
    trim_end(trim_start(s))
}

/// The bounds of `trim(cs[from..to])` within `cs`.
pub fn trim_range(cs: &Vec<char>, from: usize, to: usize) -> (r: (usize, usize))
    requires
        from <= to <= cs@.len(),
    ensures
        from <= r.0 <= r.1 <= to,
        cs@.subrange(r.0 as int, r.1 as int) == trim(cs@.subrange(from as int, to as int)),
{
    let mut lo: usize = from;
    while lo < to && is_whitespace_exec(cs[lo])
        invariant
            from <= lo <= to <= cs@.len(),
            trim_start(cs@.subrange(from as int, to as int)) == trim_start(
                cs@.subrange(lo as int, to as int),
            ),
        decreases to - lo,
    {
        assert(cs@.subrange(lo as int, to as int).drop_first() =~= cs@.subrange(
            lo + 1,
            to as int,
        ));
        lo = lo + 1;
    }
    assert(trim_start(cs@.subrange(lo as int, to as int)) == cs@.subrange(lo as int, to as int));
    let mut hi: usize = to;
    while hi > lo && is_whitespace_exec(cs[hi - 1])
        invariant
            from <= lo <= hi <= to <= cs@.len(),
            trim(cs@.subrange(from as int, to as int)) == trim_end(
                cs@.subrange(lo as int, hi as int),
            ),
        decreases hi - lo,
    {
        assert(cs@.subrange(lo as int, hi as int).drop_last() =~= cs@.subrange(
            lo as int,
            hi - 1,
        ));
        hi = hi - 1;
    }
    (lo, hi)
}

/// Whether `c` is an ASCII digit.
pub open spec fn is_digit(c: char) -> bool {
    '0' <= c && c <= '9'
}

/// The value of the decimal digit `c`.
pub open spec fn digit_value(c: char) -> nat {
    ((c as u32) - ('0' as u32)) as nat
}

/// The number that the decimal digits `d` spell.
pub open spec fn digits_value(d: Seq<char>) -> nat
    decreases d.len(),
{
    if d.len() == 0 {
        0
    } else {
        digits_value(d.drop_last()) * 10 + digit_value(d.last())
    }
}

/// The digits part of an unsigned number: `s` without one leading `+`.
pub open spec fn unsigned_digits(s: Seq<char>) -> Seq<char> {
    if s.len() > 0 && s[0] == '+' {
        s.drop_first()
    } else {
        s
    }
}

/// Whether every character of `d` is an ASCII digit.
pub open spec fn all_digits(d: Seq<char>) -> bool {
    forall|i: int| 0 <= i < d.len() ==> is_digit(#[trigger] d[i])
}

/// `s` read as `usize` by `str::parse`: an optional `+`, then one or more ASCII
/// digits whose value fits in `usize`.
pub open spec fn parse_usize(s: Seq<char>) -> Option<usize> {
    let d = unsigned_digits(s);
    if d.len() > 0 && all_digits(d) && digits_value(d) <= usize::MAX {
        Some(digits_value(d) as usize)
    } else {
        None
    }
}

proof fn lemma_digits_value_grows(d: Seq<char>, k: int)
    requires
        0 <= k <= d.len(),
    ensures
        digits_value(d.take(k)) <= digits_value(d),
    decreases d.len(),
{
    if k < d.len() {
        lemma_digits_value_grows(d.drop_last(), k);
        assert(d.drop_last().take(k) =~= d.take(k));
    } else {
        assert(d.take(k) =~= d);
    }
}

/// `cs[from..to]` read as `usize`, as `str::parse::<usize>` reads it.
pub fn parse_usize_range(cs: &Vec<char>, from: usize, to: usize) -> (r: Option<usize>)
    requires
        from <= to <= cs@.len(),
    ensures
        r == parse_usize(cs@.subrange(from as int, to as int)),
{
    let ghost s = cs@.subrange(from as int, to as int);
    let mut start = from;
    if from < to && cs[from] == '+' {
        start = from + 1;
    }
    let ghost d = cs@.subrange(start as int, to as int);
    assert(d =~= unsigned_digits(s));
    if start == to {
        return None;
    }
    let mut acc: usize = 0;
    let mut i: usize = start;
    while i < to
        invariant
            from <= start <= i <= to <= cs@.len(),
            d == cs@.subrange(start as int, to as int),
            s == cs@.subrange(from as int, to as int),
            d == unsigned_digits(s),
            d.len() > 0,
            forall|j: int| start <= j < i ==> is_digit(#[trigger] cs@[j]),
            acc as nat == digits_value(cs@.subrange(start as int, i as int)),
        decreases to - i,
    {
        let c = cs[i];
        if !('0' <= c && c <= '9') {
            assert(d[i - start] == c);
            assert(!is_digit(d[i - start]));
            return None;
        }
        let dv: u32 = (c as u32) - ('0' as u32);
        let ghost p = cs@.subrange(start as int, i + 1);
        assert(p.drop_last() =~= cs@.subrange(start as int, i as int));
        match acc.checked_mul(10) {
            Some(m) => match m.checked_add(dv as usize) {
                Some(v) => {
                    acc = v;
                },
                None => {
                    proof {
                        if all_digits(d) {
                            assert(d.take(i + 1 - start) =~= p);
                            lemma_digits_value_grows(d, i + 1 - start);
                        }
                    }
                    return None;
                },
            },
            None => {
                proof {
                    if all_digits(d) {
                        assert(d.take(i + 1 - start) =~= p);
                        lemma_digits_value_grows(d, i + 1 - start);
                    }
                }
                return None;
            },
        }
        i = i + 1;
    }
    assert(cs@.subrange(start as int, to as int) =~= d);
    Some(acc)
}

/// The decimal digit for `n < 10`.
pub open spec fn digit_char(n: nat) -> char {
    (('0' as u32) + n) as char
}

/// The decimal representation of `n`, as `Display` for the integer types writes it.
pub open spec fn decimal(n: nat) -> Seq<char>
    decreases n,
{
    if n < 10 {
        seq![digit_char(n)]
    } else {
        decimal(n / 10).push(digit_char(n % 10))
    }
}

/// A text without carriage return holds no separator.
pub proof fn lemma_no_cr_no_crlf(s: Seq<char>)
    requires
        forall|i: int| 0 <= i < s.len() ==> #[trigger] s[i] != '\r',
    ensures
        !has_crlf(s),
{
}

/// The decimal representation is a non-empty run of digits spelling the number.
pub proof fn lemma_decimal_digits(n: nat)
    ensures
        decimal(n).len() >= 1,
        all_digits(decimal(n)),
        digits_value(decimal(n)) == n,
    decreases n,
{
    let c = digit_char(n % 10);
    assert(('0' as u32) == 48);
    assert(c as u32 == 48 + n % 10);
    assert(is_digit(c));
    assert(digit_value(c) == n % 10);
    if n >= 10 {
        lemma_decimal_digits(n / 10);
        let d = decimal(n / 10);
        assert(decimal(n) == d.push(c));
        assert(decimal(n).drop_last() =~= d);
        assert forall|i: int| 0 <= i < decimal(n).len() implies is_digit(#[trigger] decimal(n)[i]) by {
            if i < d.len() {
                assert(decimal(n)[i] == d[i]);
            }
        }
        assert(decimal(n).last() == c);
        assert(digits_value(decimal(n)) == digits_value(d) * 10 + digit_value(c));
        assert((n / 10) * 10 + n % 10 == n);
    } else {
        assert(n % 10 == n);
        assert(decimal(n).drop_last() =~= Seq::<char>::empty());
        assert(decimal(n).last() == c);
        assert(digits_value(decimal(n)) == digits_value(Seq::<char>::empty()) * 10 + digit_value(c));
    }
}

/// Reading back what was printed: every `usize` parses from its decimal digits.
pub proof fn lemma_parse_decimal(n: usize)
    ensures
        parse_usize(decimal(n as nat)) == Some(n),
{
    lemma_decimal_digits(n as nat);
    let d = decimal(n as nat);
    assert(is_digit(d[0]));
    assert(unsigned_digits(d) == d);
}

/// A space and a run of digits, trimmed, leave the digits.
pub proof fn lemma_trim_space_digits(d: Seq<char>)
    requires
        d.len() >= 1,
        all_digits(d),
    ensures
        trim(seq![' '] + d) == d,
{
    let s = seq![' '] + d;
    assert(is_whitespace(s[0]));
    assert(s.drop_first() =~= d);
    assert(is_digit(d[0]));
    assert(trim_start(d) == d);
    assert(trim_start(s) == d);
    assert(is_digit(d.last()));
    assert(trim_end(d) == d);
}

/// Law: `str::parse::<usize>` reads decimal digits, with or without one leading `+`,
/// as the number they spell when it fits in `usize`, and rejects them when it does not;
/// a leading `-` and the empty text are rejected.
pub proof fn law_parse_usize_reads_decimal(m: nat)
    ensures
        parse_usize(decimal(m)) == (if m <= usize::MAX { Some(m as usize) } else { None::<usize> }),
        parse_usize(seq!['+'] + decimal(m)) == parse_usize(decimal(m)),
        parse_usize(seq!['-'] + decimal(m)) == None::<usize>,
        parse_usize(Seq::<char>::empty()) == None::<usize>,
{
    lemma_decimal_digits(m);
    let d = decimal(m);
    assert(is_digit(d[0]));
    assert(unsigned_digits(d) == d);
    assert((seq!['+'] + d).drop_first() =~= d);
    assert(unsigned_digits(seq!['+'] + d) == d);
    let minus = seq!['-'] + d;
    assert(unsigned_digits(minus) == minus);
    assert(!is_digit(minus[0]));
}

fn digit_char_exec(n: u128) -> (c: char)
    requires
        n < 10,
    ensures
        c == digit_char(n as nat),
{
    let b: u8 = 48u8 + (n as u8);
    b as char
}

/// Appends the decimal representation of `n` to `out`.
pub fn push_decimal(out: &mut String, n: u128)
    ensures
        final(out)@ == old(out)@ + decimal(n as nat),
{
    let mut digits: Vec<char> = Vec::new();
    let mut m: u128 = n;
    while m >= 10
        invariant
            decimal(n as nat) == decimal(m as nat) + digits@,
        decreases m,
    {
        let c = digit_char_exec(m % 10);
        let ghost old_digits = digits@;
        digits.insert(0, c);
        assert(decimal(m as nat) == decimal((m / 10) as nat).push(c));
        assert(decimal(m as nat) + old_digits =~= decimal((m / 10) as nat) + digits@);
        m = m / 10;
    }
    let c = digit_char_exec(m);
    digits.insert(0, c);
    assert(decimal(n as nat) =~= digits@);
    push_chars(out, &digits);
}

} // verus!

//! The phone-number whitelist: which SMS requests are passed on, and what the
//! client is answered.

use vstd::prelude::*;

verus! {

/// The whitelist: numbers allowed as they are, and wildcard patterns (`*` for any run
/// of characters, `?` for one character) that allowed numbers match.
pub struct List {
    pub exact: Vec<String>,
    pub wildcard: Vec<String>,
}

/// The parameters of an SMS request, as the client sends them.
#[allow(non_snake_case)]
pub struct SMSParams {
    pub userid: Option<String>,
    pub account: Option<String>,
    pub password: Option<String>,
    pub mobile: String,
    pub content: Option<String>,
    pub sendTime: Option<String>,
    pub action: Option<String>,
    pub extno: Option<String>,
}

/// The HTTP method with which the SMS service is called.
#[derive(Debug, PartialEq, Eq, Structural)]
pub enum RUAService {
    Get,
    Post,
}

/// Why a number is allowed, or that it is not.
#[derive(Debug, PartialEq, Eq, Structural)]
pub enum Admission {
    /// The number is in the exact list.
    Exact,
    /// The number is not in the exact list but matches a wildcard pattern.
    Wildcard,
    /// The number is in neither list.
    Refused,
}

/// A status code and body to answer a client with.
#[derive(Debug)]
pub struct Reply {
    pub status: u16,
    pub body: String,
}

/// The character sequences of a list of strings.
pub open spec fn string_views(v: Seq<String>) -> Seq<Seq<char>> {
    v.map_values(|s: String| s@)
}

/// Whether `pattern` matches the whole of `text`: `*` matches any run of characters,
/// the empty one included, `?` matches one character, and every other character
/// matches itself.
pub open spec fn wildcard_matches(pattern: Seq<char>, text: Seq<char>) -> bool
    decreases pattern.len(), text.len(),
{
    if pattern.len() == 0 {
        text.len() == 0
    } else if pattern[0] == '*' {
        wildcard_matches(pattern.drop_first(), text) || (text.len() > 0 && wildcard_matches(
            pattern,
            text.drop_first(),
        ))
    } else {
        text.len() > 0 && (pattern[0] == '?' || pattern[0] == text[0]) && wildcard_matches(
            pattern.drop_first(),
            text.drop_first(),
        )
    }
}

/// Calls `wildmatch::WildMatch::new(pattern).matches(text)`. Claimed: the result is
/// `wildcard_matches`, the matching that the crate documents (`?` one character, `*`
/// any run of characters, whole text, no escapes).
#[verifier::external_body]
fn wildcard_match(pattern: &str, text: &str) -> (r: bool)
    ensures
        r == wildcard_matches(pattern@, text@),
{
    wildmatch::WildMatch::new(pattern).matches(text)
}

/// Whether some pattern of `patterns` matches `text`.
pub open spec fn matches_some(patterns: Seq<Seq<char>>, text: Seq<char>) -> bool {
    exists|i: int| 0 <= i < patterns.len() && wildcard_matches(#[trigger] patterns[i], text)
}

/// The admission of `mobile`: the exact list is looked at first, then the wildcards.
pub open spec fn admission(exact: Seq<Seq<char>>, wildcard: Seq<Seq<char>>, mobile: Seq<char>) -> Admission {
    if exact.contains(mobile) {
        Admission::Exact
    } else if matches_some(wildcard, mobile) {
        Admission::Wildcard
    } else {
        Admission::Refused
    }
}

/// A pattern without `*` or `?` matches exactly the text equal to it, so such an
/// entry of the wildcard list admits the same number as in the exact list.
pub proof fn lemma_plain_pattern_matches_itself(pattern: Seq<char>, text: Seq<char>)
    requires
        !pattern.contains('*'),
        !pattern.contains('?'),
    ensures
        wildcard_matches(pattern, text) <==> pattern == text,
    decreases pattern.len(),
{
    if pattern.len() > 0 {
        let p = pattern.drop_first();
        assert(!p.contains('*')) by {
            if p.contains('*') {
                let i = choose|i: int| 0 <= i < p.len() && p[i] == '*';
                assert(pattern[i + 1] == '*');
            }
        }
        assert(!p.contains('?')) by {
            if p.contains('?') {
                let i = choose|i: int| 0 <= i < p.len() && p[i] == '?';
                assert(pattern[i + 1] == '?');
            }
        }
        assert(pattern[0] != '*' && pattern[0] != '?') by {
            assert(pattern.contains(pattern[0]));
        }
        if text.len() > 0 {
            lemma_plain_pattern_matches_itself(p, text.drop_first());
            if pattern[0] == text[0] && p == text.drop_first() {
                assert forall|i: int| 0 <= i < pattern.len() implies pattern[i] == text[i] by {
                    if i > 0 {
                        assert(pattern[i] == p[i - 1]);
                        assert(text[i] == text.drop_first()[i - 1]);
                    }
                }
                assert(pattern =~= text);
            }
            if pattern == text {
                assert(p =~= text.drop_first());
            }
        }
    } else {
        if text.len() == 0 {
            assert(pattern =~= text);
        }
    }
}

/// Law: a pattern without `*` matches exactly the texts of its own length that agree
/// with it at every position where it does not hold `?`; each `?` stands for exactly
/// one character.
pub proof fn law_pattern_without_star(pattern: Seq<char>, text: Seq<char>)
    requires
        !pattern.contains('*'),
    ensures
        wildcard_matches(pattern, text) <==> (text.len() == pattern.len() && forall|i: int|
            0 <= i < pattern.len() ==> pattern[i] == '?' || #[trigger] pattern[i] == text[i]),
    decreases pattern.len(),
{
    if pattern.len() > 0 {
        let p = pattern.drop_first();
        assert(!p.contains('*')) by {
            if p.contains('*') {
                let i = choose|i: int| 0 <= i < p.len() && p[i] == '*';
                assert(pattern[i + 1] == '*');
            }
        }
        assert(pattern[0] != '*') by {
            assert(pattern.contains(pattern[0]));
        }
        if text.len() > 0 {
            let t = text.drop_first();
            law_pattern_without_star(p, t);
            if wildcard_matches(pattern, text) {
                assert forall|i: int| 0 <= i < pattern.len() implies pattern[i] == '?'
                    || #[trigger] pattern[i] == text[i] by {
                    if i > 0 {
                        assert(pattern[i] == p[i - 1]);
                        assert(text[i] == t[i - 1]);
                    }
                }
            }
            if text.len() == pattern.len() && forall|i: int|
                0 <= i < pattern.len() ==> pattern[i] == '?' || #[trigger] pattern[i] == text[i] {
                assert(pattern[0] == '?' || pattern[0] == text[0]);
                assert forall|i: int| 0 <= i < p.len() implies p[i] == '?' || #[trigger] p[i]
                    == t[i] by {
                    assert(pattern[i + 1] == '?' || pattern[i + 1] == text[i + 1]);
                }
            }
        }
    }
}

/// The pattern `*` matches every number, the empty one included.
pub proof fn lemma_star_matches_everything(text: Seq<char>)
    ensures
        wildcard_matches(seq!['*'], text),
    decreases text.len(),
{
    let star = seq!['*'];
    assert(star.drop_first() =~= Seq::<char>::empty());
    assert(star.len() == 1 && star[0] == '*');
    if text.len() > 0 {
        lemma_star_matches_everything(text.drop_first());
    } else {
        assert(wildcard_matches(star.drop_first(), text));
    }
}

/// Adding numbers or patterns to the lists never refuses a number that was admitted,
/// and a number admitted by the exact list stays admitted by it.
pub proof fn lemma_admission_survives_additions(
    exact: Seq<Seq<char>>,
    wildcard: Seq<Seq<char>>,
    more_exact: Seq<Seq<char>>,
    more_wildcard: Seq<Seq<char>>,
    mobile: Seq<char>,
)
    ensures
        admission(exact, wildcard, mobile) != Admission::Refused ==> admission(
            exact + more_exact,
            wildcard + more_wildcard,
            mobile,
        ) != Admission::Refused,
        admission(exact, wildcard, mobile) == Admission::Exact ==> admission(
            exact + more_exact,
            wildcard + more_wildcard,
            mobile,
        ) == Admission::Exact,
{
    if exact.contains(mobile) {
        let i = choose|i: int| 0 <= i < exact.len() && exact[i] == mobile;
        assert((exact + more_exact)[i] == mobile);
    } else if matches_some(wildcard, mobile) {
        let i = choose|i: int| 0 <= i < wildcard.len() && wildcard_matches(#[trigger] wildcard[i], mobile);
        assert((wildcard + more_wildcard)[i] == wildcard[i]);
    }
}

/// Law: a number equal to any entry of the exact list, at whatever position, is
/// admitted by the exact list.
pub proof fn law_listed_number_is_exact(
    exact: Seq<Seq<char>>,
    wildcard: Seq<Seq<char>>,
    mobile: Seq<char>,
    i: int,
)
    requires
        0 <= i < exact.len(),
        exact[i] == mobile,
    ensures
        admission(exact, wildcard, mobile) == Admission::Exact,
{
    assert(exact.contains(mobile));
}

/// Law: `Exact` only for a number equal to an entry of the exact list; `Wildcard` only
/// for a number in no exact entry that some pattern matches; `Refused` only for a number
/// in no exact entry and matched by no pattern.
pub proof fn law_admission_reasons(exact: Seq<Seq<char>>, wildcard: Seq<Seq<char>>, mobile: Seq<char>)
    ensures
        admission(exact, wildcard, mobile) == Admission::Exact ==> exists|i: int|
            0 <= i < exact.len() && #[trigger] exact[i] == mobile,
        admission(exact, wildcard, mobile) != Admission::Exact ==> forall|i: int|
            0 <= i < exact.len() ==> #[trigger] exact[i] != mobile,
        admission(exact, wildcard, mobile) == Admission::Wildcard ==> exists|j: int|
            0 <= j < wildcard.len() && wildcard_matches(#[trigger] wildcard[j], mobile),
        admission(exact, wildcard, mobile) == Admission::Refused ==> forall|j: int|
            0 <= j < wildcard.len() ==> !wildcard_matches(#[trigger] wildcard[j], mobile),
{
    if admission(exact, wildcard, mobile) != Admission::Exact {
        assert forall|i: int| 0 <= i < exact.len() implies #[trigger] exact[i] != mobile by {
            if exact[i] == mobile {
                assert(exact.contains(mobile));
            }
        }
    }
}

impl List {
    pub open spec fn exact_view(&self) -> Seq<Seq<char>> {
        string_views(self.exact@)
    }

    pub open spec fn wildcard_view(&self) -> Seq<Seq<char>> {
        string_views(self.wildcard@)
    }

    fn in_exact(&self, mobile: &String) -> (r: bool)
        ensures
            r == self.exact_view().contains(mobile@),
    {
        let n = self.exact.len();
        let mut i: usize = 0;
        while i < n
            invariant
                n == self.exact@.len(),
                i <= n,
                forall|j: int| 0 <= j < i ==> self.exact_view()[j] != mobile@,
            decreases n - i,
        {
            if self.exact[i] == *mobile {
                assert(self.exact_view()[i as int] == mobile@);
                return true;
            }
            i = i + 1;
        }
        false
    }

    fn in_wildcard(&self, mobile: &String) -> (r: bool)
        ensures
            r == matches_some(self.wildcard_view(), mobile@),
    {
        let n = self.wildcard.len();
        let mut i: usize = 0;
        while i < n
            invariant
                n == self.wildcard@.len(),
                i <= n,
                forall|j: int|
                    0 <= j < i ==> !wildcard_matches(#[trigger] self.wildcard_view()[j], mobile@),
            decreases n - i,
        {
            if wildcard_match(self.wildcard[i].as_str(), mobile.as_str()) {
                assert(wildcard_matches(self.wildcard_view()[i as int], mobile@));
                return true;
            }
            i = i + 1;
        }
        false
    }

    /// Whether an SMS to `mobile` is sent: first the exact list is searched, and a
    /// number found there is sent at once; otherwise the wildcard list; a number in
    /// neither is refused.
    pub fn check_mobile(&self, mobile: &String) -> (r: Admission)
        ensures
            r == admission(self.exact_view(), self.wildcard_view(), mobile@),
    {
        if self.in_exact(mobile) {
            Admission::Exact
        } else if self.in_wildcard(mobile) {
            Admission::Wildcard
        } else {
            Admission::Refused
        }
    }
}

/// The answer to a number that is in neither list: 403 and
/// `Phone number is not in whitelist`.
pub fn refused_reply() -> (r: Reply)
    ensures
        r.status == 403,
        r.body@ == "Phone number is not in whitelist"@,
{
    Reply { status: 403, body: String::from_str("Phone number is not in whitelist") }
}

/// The answer relayed from the SMS service: 200 and the service's body when the
/// request succeeded, otherwise 500 and the fixed text
/// `Failed to request sms.aspx {err}` (the braces are part of the text).
pub fn sms_reply<E>(outcome: Result<String, E>) -> (r: Reply)
    ensures
        match outcome {
            Ok(body) => r.status == 200 && r.body@ == body@,
            Err(_) => r.status == 500 && r.body@ == "Failed to request sms.aspx {err}"@,
        },
{
    match outcome {
        Ok(body) => Reply { status: 200, body },
        Err(_) => Reply { status: 500, body: String::from_str("Failed to request sms.aspx {err}") },
    }
}

/// The answer for a route that does not exist: 404 and `Not found`.
pub fn not_found_reply() -> (r: Reply)
    ensures
        r.status == 404,
        r.body@ == "Not found"@,
{
    Reply { status: 404, body: String::from_str("Not found") }
}

/// The address of the SMS service for a request path: the base URL followed by the
/// path and query of the request.
pub fn sms_request_url(base: &str, uri: &str) -> (r: String)
    ensures
        r@ == base@ + uri@,
{
    let mut out = String::new();
    out.append(base);
    out.append(uri);
    out
}

} // verus!

//! Remote-call client model: endpoint credentials, the tagged value type
//! for call parameters and results, the argument-string request builder,
//! the exact JSON wire encoding of a request, and the response envelope
//! with its fail-fast unpacking policy.
//!
//! The network transport itself (an HTTP POST with basic authentication)
//! is not part of this library; a caller takes the encoded body and the
//! credentials, performs the exchange, and hands the decoded envelope
//! back.

use vstd::prelude::*;

verus! {

use crate::money::FEE_UNITS;
use crate::money::MAX_AMOUNT_UNITS;
use crate::money::UNITS_PER_COIN;
use crate::money::pct_share;
use crate::money::share;
use crate::money::valid_amount;
use crate::text::amount_chars;
use crate::text::dec_chars;
use crate::text::is_number_token;
use crate::text::json_escaped;
use crate::text::json_escape;
use crate::text::char_index;
use crate::text::parse_amount_token;
use crate::text::quoted_value;
use crate::text::unquote;
use crate::text::render_amount;
use crate::text::render_nat;
use crate::text::token_units;
use vstd::string::StrSliceExecFns;
use vstd::string::StringExecFns;

/// Wallet endpoint credentials: URL, user and password, assembled once and
/// read-only afterwards.
#[derive(Debug, Clone)]
pub struct AuthToken {
    pub user: String,
    pub password: String,
    pub url: String,
}

/// The endpoint URL for a wallet host: the wallet path is appended only
/// when a wallet name is given.
pub open spec fn url_chars(ip: Seq<char>, port: u16, walletname: Seq<char>) -> Seq<char> {
    let base = "http://"@ + ip + ":"@ + dec_chars(port as nat);
    if walletname.len() == 0 {
        base + "/"@
    } else {
        base + "/wallet/"@ + walletname
    }
}

impl AuthToken {
    /// An empty token, to be filled by `target` and `credentials`.
    pub fn new() -> (a: AuthToken)
        ensures
            a.user@ == Seq::<char>::empty(),
            a.password@ == Seq::<char>::empty(),
            a.url@ == Seq::<char>::empty(),
    {
        AuthToken { user: String::new(), password: String::new(), url: String::new() }
    }

    /// Points the token at a wallet endpoint.
    pub fn target(self, ip: &str, port: u16, walletname: &str) -> (a: AuthToken)
        ensures
            a.url@ == url_chars(ip@, port, walletname@),
            a.user@ == self.user@,
            a.password@ == self.password@,
    {
        let mut url = "http://".to_owned();
        url.append(ip);
        url.append(":");
        let p = render_nat(port as u64);
        url.append(p.as_str());
        if walletname.unicode_len() == 0 {
            url.append("/");
        } else {
            url.append("/wallet/");
            url.append(walletname);
        }
        AuthToken { user: self.user, password: self.password, url }
    }

    /// Records the user name and password.
    pub fn credentials(self, user: &str, password: &str) -> (a: AuthToken)
        ensures
            a.user@ == user@,
            a.password@ == password@,
            a.url@ == self.url@,
    {
        AuthToken { user: user.to_owned(), password: password.to_owned(), url: self.url }
    }
}

impl Default for AuthToken {
    /// The same empty token that `new` yields.
    fn default() -> (a: AuthToken)
        ensures
            a.user@ == Seq::<char>::empty(),
            a.password@ == Seq::<char>::empty(),
            a.url@ == Seq::<char>::empty(),
    {
        AuthToken::new()
    }
}

/// A call parameter or result value, mirroring the loose JSON schema of
/// the wallet interface. Numbers are fixed-point amounts in minor units;
/// an amount table maps recipient addresses to amounts.
#[derive(Debug, Clone, PartialEq, Eq)]
pub enum RpcValue {
    Null,
    Bool(bool),
    Num(u64),
    Str(String),
    Table(Vec<(String, u64)>),
}

/// The mathematical shape of an [`RpcValue`].
pub enum SpecValue {
    Null,
    Bool(bool),
    Num(int),
    Str(Seq<char>),
    Table(Seq<(Seq<char>, int)>),
}

/// The mathematical shape of an amount table.
pub open spec fn table_view(es: Seq<(String, u64)>) -> Seq<(Seq<char>, int)> {
    es.map_values(|e: (String, u64)| (e.0@, e.1 as int))
}

impl View for RpcValue {
    type V = SpecValue;

    open spec fn view(&self) -> SpecValue {
        match self {
            RpcValue::Null => SpecValue::Null,
            RpcValue::Bool(b) => SpecValue::Bool(*b),
            RpcValue::Num(u) => SpecValue::Num(*u as int),
            RpcValue::Str(s) => SpecValue::Str(s@),
            RpcValue::Table(t) => SpecValue::Table(table_view(t@)),
        }
    }
}

/// The span of a string literal's body: how many characters there are up
/// to and including the closing quote, in text standing just after an
/// opening quote; nothing if the literal never closes.
pub open spec fn string_body_len(s: Seq<char>) -> Option<int>
    decreases s.len(),
{
    if s.len() == 0 {
        None
    } else if s[0] == '"' {
        Some(1)
    } else if s[0] == '\\' {
        if s.len() < 2 {
            None
        } else {
            match string_body_len(s.skip(2)) {
                Some(k) => Some(k + 2),
                None => None,
            }
        }
    } else {
        match string_body_len(s.drop_first()) {
            Some(k) => Some(k + 1),
            None => None,
        }
    }
}

pub proof fn lemma_string_body_len(s: Seq<char>)
    ensures
        (match string_body_len(s) {
            Option::Some(k) => 1 <= k <= s.len(),
            Option::None => true,
        }),
    decreases s.len(),
{
    if s.len() != 0 && s[0] != '"' {
        if s[0] == '\\' {
            if s.len() >= 2 {
                lemma_string_body_len(s.skip(2));
            }
        } else {
            lemma_string_body_len(s.drop_first());
        }
    }
}

/// The entry list denoted by the inside of an amount-table token: one or
/// more `"address":amount` entries separated by commas, the address a
/// quoted string and the amount a representable decimal. The two guards
/// on the spans always hold; they make the recursion visibly bounded.
pub open spec fn parse_entries(s: Seq<char>) -> Option<Seq<(Seq<char>, int)>>
    decreases s.len(),
{
    if s.len() == 0 || s[0] != '"' {
        None
    } else {
        match string_body_len(s.drop_first()) {
            None => None,
            Some(k) => if !(1 <= k && 1 + k <= s.len()) {
                None
            } else {
                match quoted_value(s.take(1 + k)) {
                    None => None,
                    Some(key) => {
                        let rest = s.skip(1 + k);
                        if rest.len() == 0 || rest[0] != ':' {
                            None
                        } else {
                            let after = rest.drop_first();
                            let ci = char_index(after, ',');
                            if !(0 <= ci <= after.len()) {
                                None
                            } else {
                                let numtok = after.take(ci);
                                if !(is_number_token(numtok) && token_units(numtok)
                                    <= MAX_AMOUNT_UNITS as int) {
                                    None
                                } else if ci >= after.len() {
                                    Some(seq![(key, token_units(numtok))])
                                } else {
                                    match parse_entries(after.skip(ci + 1)) {
                                        None => None,
                                        Some(more) => Some(
                                            seq![(key, token_units(numtok))] + more,
                                        ),
                                    }
                                }
                            }
                        }
                    },
                }
            },
        }
    }
}

/// The entry list an amount-table token denotes: braces around a valid
/// entry list, or around nothing at all.
pub open spec fn table_token_value(s: Seq<char>) -> Option<Seq<(Seq<char>, int)>> {
    if s.len() >= 2 && s[0] == '{' && s[s.len() - 1] == '}' {
        if s.len() == 2 {
            Some(Seq::empty())
        } else {
            parse_entries(s.subrange(1, s.len() - 1))
        }
    } else {
        None
    }
}

/// How one whitespace-delimited argument token is read: the JSON literals
/// `true`, `false` and `null`, an unsigned decimal amount, a quoted
/// string with its escapes decoded, or an object mapping addresses to
/// amounts; every other token stays a literal string.
pub open spec fn token_value(s: Seq<char>) -> SpecValue {
    if s == "true"@ {
        SpecValue::Bool(true)
    } else if s == "false"@ {
        SpecValue::Bool(false)
    } else if s == "null"@ {
        SpecValue::Null
    } else if is_number_token(s) && token_units(s) <= MAX_AMOUNT_UNITS as int {
        SpecValue::Num(token_units(s))
    } else {
        match quoted_value(s) {
            Some(t) => SpecValue::Str(t),
            None => match table_token_value(s) {
                Some(es) => SpecValue::Table(es),
                None => SpecValue::Str(s),
            },
        }
    }
}

fn str_eq(a: &str, b: &str) -> (r: bool)
    ensures
        r == (a@ == b@),
{
    let x = a.to_owned();
    let y = b.to_owned();
    x == y
}

/// Reads the inside of an amount-table token into its entries, or nothing
/// where the text does not fit the entry-list grammar.
fn parse_entries_exec(s: &str) -> (r: Option<Vec<(String, u64)>>)
    ensures
        r is Some <==> parse_entries(s@) is Some,
        (match r {
            Option::Some(es) => parse_entries(s@) == Option::Some(table_view(es@)),
            Option::None => true,
        }),
    decreases s@.len(),
{
    let n = s.unicode_len();
    if n == 0 {
        return None;
    }
    if s.get_char(0) != '"' {
        return None;
    }
    let body = s.substring_char(1, n);
    proof {
        assert(body@ =~= s@.drop_first());
    }
    let k = match string_body_len_exec(body) {
        Option::Some(k) => k,
        Option::None => {
            return None;
        },
    };
    proof {
        lemma_string_body_len(body@);
    }
    let keytok = s.substring_char(0, 1 + k);
    proof {
        assert(keytok@ =~= s@.take(1 + k as int));
    }
    let key = if keytok.get_char(0) == '"' && keytok.get_char(k) == '"' {
        let inner = keytok.substring_char(1, k);
        proof {
            assert(inner@ =~= keytok@.subrange(1, keytok@.len() - 1));
        }
        match unquote(inner) {
            Option::Some(t) => t,
            Option::None => {
                proof {
                    assert(quoted_value(s@.take(1 + k as int)) is None);
                }
                return None;
            },
        }
    } else {
        proof {
            assert(quoted_value(s@.take(1 + k as int)) is None);
        }
        return None;
    };
    proof {
        assert(quoted_value(s@.take(1 + k as int)) == Option::Some(key@));
    }
    if 1 + k >= n {
        proof {
            assert(s@.skip(1 + k as int).len() == 0);
        }
        return None;
    }
    if s.get_char(1 + k) != ':' {
        proof {
            assert(s@.skip(1 + k as int)[0] == s@[1 + k as int]);
        }
        return None;
    }
    let ghost rest = s@.skip(1 + k as int);
    let ghost after = rest.drop_first();
    let after_exec = s.substring_char(1 + k + 1, n);
    proof {
        assert(rest[0] == s@[1 + k as int]);
        assert(after_exec@ =~= after);
    }
    let ci = crate::text::find_char(after_exec, ',');
    let numtok = after_exec.substring_char(0, ci);
    proof {
        assert(numtok@ =~= after.take(ci as int));
    }
    let units = match parse_amount_token(numtok) {
        Option::Some(u) => u,
        Option::None => {
            return None;
        },
    };
    if ci >= n - (1 + k + 1) {
        let ghost keyv = key@;
        let mut es: Vec<(String, u64)> = Vec::new();
        es.push((key, units));
        proof {
            assert(ci as int >= after.len());
            assert(table_view(es@) =~= seq![(keyv, units as int)]);
        }
        Some(es)
    } else {
        let rest2 = s.substring_char(1 + k + 1 + ci + 1, n);
        proof {
            assert(rest2@ =~= after.skip(ci + 1));
            assert(after.skip(ci + 1).len() < s@.len());
        }
        match parse_entries_exec(rest2) {
            Option::Some(more) => {
                let ghost keyv = key@;
                let ghost morev = more@;
                let mut es = more;
                es.insert(0, (key, units));
                proof {
                    assert(es@.drop_first() =~= morev);
                    assert(table_view(es@) =~= seq![(keyv, units as int)] + table_view(morev));
                }
                Some(es)
            },
            Option::None => None,
        }
    }
}

/// Finds the span of a string literal's body, for text standing just
/// after an opening quote.
fn string_body_len_exec(s: &str) -> (r: Option<usize>)
    ensures
        r is Some <==> string_body_len(s@) is Some,
        (match r {
            Option::Some(k) => string_body_len(s@) == Option::Some(k as int),
            Option::None => true,
        }),
    decreases s@.len(),
{
    let n = s.unicode_len();
    if n == 0 {
        return None;
    }
    let c0 = s.get_char(0);
    if c0 == '"' {
        return Some(1);
    }
    if c0 == '\\' {
        if n < 2 {
            return None;
        }
        let rest = s.substring_char(2, n);
        proof {
            assert(rest@ =~= s@.skip(2));
            lemma_string_body_len(rest@);
        }
        match string_body_len_exec(rest) {
            Option::Some(k) => Some(k + 2),
            Option::None => None,
        }
    } else {
        let rest = s.substring_char(1, n);
        proof {
            assert(rest@ =~= s@.drop_first());
            lemma_string_body_len(rest@);
        }
        match string_body_len_exec(rest) {
            Option::Some(k) => Some(k + 1),
            Option::None => None,
        }
    }
}

/// Reads one argument token as a typed value, falling back to a literal
/// string when it fits no other form.
pub fn parse_token(tok: &str) -> (v: RpcValue)
    ensures
        v@ == token_value(tok@),
{
    if str_eq(tok, "true") {
        return RpcValue::Bool(true);
    }
    if str_eq(tok, "false") {
        return RpcValue::Bool(false);
    }
    if str_eq(tok, "null") {
        return RpcValue::Null;
    }
    match parse_amount_token(tok) {
        Some(u) => RpcValue::Num(u),
        None => {
            let n = tok.unicode_len();
            if n >= 2 && tok.get_char(0) == '"' && tok.get_char(n - 1) == '"' {
                let inner = tok.substring_char(1, n - 1);
                proof {
                    assert(inner@ =~= tok@.subrange(1, tok@.len() - 1));
                }
                match unquote(inner) {
                    Option::Some(t) => {
                        proof {
                            assert(quoted_value(tok@) == Option::Some(t@));
                        }
                        RpcValue::Str(t)
                    },
                    Option::None => {
                        proof {
                            assert(quoted_value(tok@) is None);
                            assert(table_token_value(tok@) is None);
                        }
                        RpcValue::Str(tok.to_owned())
                    },
                }
            } else if n >= 2 && tok.get_char(0) == '{' && tok.get_char(n - 1) == '}' {
                proof {
                    assert(quoted_value(tok@) is None);
                }
                if n == 2 {
                    let es: Vec<(String, u64)> = Vec::new();
                    proof {
                        assert(table_token_value(tok@) == Option::Some(
                            Seq::<(Seq<char>, int)>::empty(),
                        ));
                        assert(table_view(es@) =~= Seq::<(Seq<char>, int)>::empty());
                    }
                    RpcValue::Table(es)
                } else {
                    let inner = tok.substring_char(1, n - 1);
                    proof {
                        assert(inner@ =~= tok@.subrange(1, tok@.len() - 1));
                    }
                    match parse_entries_exec(inner) {
                        Option::Some(es) => RpcValue::Table(es),
                        Option::None => RpcValue::Str(tok.to_owned()),
                    }
                }
            } else {
                proof {
                    assert(quoted_value(tok@) is None);
                    assert(table_token_value(tok@) is None);
                }
                RpcValue::Str(tok.to_owned())
            }
        },
    }
}

/// The space-separated tokens of an argument string, exactly as a split on
/// single spaces yields them: consecutive spaces give empty tokens, and
/// the empty string gives one empty token.
pub open spec fn split_tokens(s: Seq<char>) -> Seq<Seq<char>>
    decreases s.len(),
{
    if s.len() == 0 {
        seq![Seq::<char>::empty()]
    } else if s[0] == ' ' {
        seq![Seq::<char>::empty()] + split_tokens(s.drop_first())
    } else {
        let rest = split_tokens(s.drop_first());
        rest.update(0, seq![s[0]] + rest[0])
    }
}

pub proof fn lemma_split_nonempty(s: Seq<char>)
    ensures
        1 <= split_tokens(s).len() <= s.len() + 1,
    decreases s.len(),
{
    if s.len() != 0 {
        lemma_split_nonempty(s.drop_first());
    }
}

/// Splitting takes the text up to the first space as the first token and
/// splits the remainder after that space.
pub proof fn lemma_split_first(s: Seq<char>)
    ensures
        crate::text::char_index(s, ' ') >= s.len() ==> split_tokens(s) == seq![s],
        crate::text::char_index(s, ' ') < s.len() ==> split_tokens(s) == seq![
            s.take(crate::text::char_index(s, ' ')),
        ] + split_tokens(s.skip(crate::text::char_index(s, ' ') + 1)),
    decreases s.len(),
{
    crate::text::lemma_char_index(s, ' ');
    let d = crate::text::char_index(s, ' ');
    if s.len() == 0 {
        assert(s =~= Seq::<char>::empty());
        assert(split_tokens(s) =~= seq![s]);
    } else if s[0] == ' ' {
        assert(s.take(0) =~= Seq::<char>::empty());
        assert(s.skip(1) =~= s.drop_first());
        assert(split_tokens(s) =~= seq![s.take(0)] + split_tokens(s.skip(1)));
    } else {
        let t = s.drop_first();
        lemma_split_first(t);
        lemma_split_nonempty(t);
        let dt = crate::text::char_index(t, ' ');
        assert(d == 1 + dt);
        if dt >= t.len() {
            assert(split_tokens(t) == seq![t]);
            assert(split_tokens(s) == split_tokens(t).update(0, seq![s[0]] + split_tokens(t)[0]));
            assert(split_tokens(t)[0] == t);
            assert(seq![s[0]] + t =~= s);
            assert(split_tokens(s) =~= seq![s]);
        } else {
            assert(seq![s[0]] + t.take(dt) =~= s.take(d));
            assert(t.skip(dt + 1) =~= s.skip(d + 1));
            assert(split_tokens(s) =~= seq![s.take(d)] + split_tokens(s.skip(d + 1)));
        }
    }
}

/// A remote call: a method name and its ordered typed parameters.
#[derive(Debug, Clone, PartialEq, Eq)]
pub struct RpcRequest {
    pub method: String,
    pub params: Vec<RpcValue>,
}

/// Builds a remote call from one space-delimited argument string. The
/// first token is the method name and is never decoded; every following
/// token is read as a typed value, staying a literal string when it fits
/// no other form.
pub fn parametrize(args: &str) -> (r: RpcRequest)
    requires
        args@.len() < usize::MAX,
    ensures
        r.method@ == split_tokens(args@)[0],
        r.params@.len() == split_tokens(args@).len() - 1,
        forall|i: int| 0 <= i < r.params@.len() ==> (#[trigger] r.params@[i])@ == token_value(
            split_tokens(args@)[i + 1],
        ),
{
    let n = args.unicode_len();
    let mut method = String::new();
    let mut params: Vec<RpcValue> = Vec::new();
    let mut pos: usize = 0;
    let mut k: usize = 0;
    let ghost toks = split_tokens(args@);
    proof {
        lemma_split_nonempty(args@);
        assert(args@.skip(0) =~= args@);
        assert(toks.take(0) + split_tokens(args@.skip(0)) =~= toks);
    }
    while pos <= n
        invariant
            pos <= n + 1,
            n == args@.len(),
            n < usize::MAX,
            toks == split_tokens(args@),
            1 <= toks.len() <= n + 1,
            k <= toks.len(),
            pos <= n ==> toks == toks.take(k as int) + split_tokens(args@.skip(pos as int)),
            pos <= n ==> k + split_tokens(args@.skip(pos as int)).len() == toks.len(),
            pos == n + 1 ==> k == toks.len(),
            k >= 1 ==> method@ == toks[0],
            k == 0 ==> pos == 0,
            k >= 1 ==> params@.len() == k - 1,
            k == 0 ==> params@.len() == 0,
            forall|i: int| 0 <= i < params@.len() ==> (#[trigger] params@[i])@ == token_value(
                toks[i + 1],
            ),
        decreases n + 1 - pos,
    {
        let rest = args.substring_char(pos, n);
        let d = crate::text::find_char(rest, ' ');
        let tok = rest.substring_char(0, d);
        proof {
            assert(rest@ =~= args@.skip(pos as int));
            lemma_split_first(rest@);
            lemma_split_nonempty(rest@);
            assert(tok@ =~= rest@.take(d as int));
            let tail = split_tokens(args@.skip(pos as int));
            assert(toks == toks.take(k as int) + tail);
            assert(tail == split_tokens(rest@));
            assert(toks.take(k as int).len() == k);
            assert(toks[k as int] == tail[0]);
            assert(toks[k as int] == split_tokens(rest@)[0]);
            if (d as int) < rest@.len() {
                assert(split_tokens(rest@)[0] == rest@.take(d as int));
            } else {
                assert(split_tokens(rest@)[0] == rest@);
                assert(tok@ =~= rest@);
            }
            assert(tok@ == toks[k as int]);
        }
        if k == 0 {
            method = tok.to_owned();
        } else {
            let v = parse_token(tok);
            params.push(v);
        }
        proof {
            if (d as int) < rest@.len() {
                assert(rest@.skip(d + 1) =~= args@.skip(pos + d + 1));
                assert(toks.take(k + 1) =~= toks.take(k as int) + seq![toks[k as int]]);
                assert(toks.take(k + 1) + split_tokens(args@.skip(pos + d + 1)) =~= toks.take(
                    k as int,
                ) + split_tokens(args@.skip(pos as int)));
            } else {
                assert(toks =~= toks.take(k as int) + seq![rest@]);
                assert(toks.len() == k + 1);
            }
        }
        pos = pos + d + 1;
        k = k + 1;
    }
    RpcRequest { method, params }
}

/// The views of a parameter list.
pub open spec fn views_of(ps: Seq<RpcValue>) -> Seq<SpecValue> {
    ps.map_values(|p: RpcValue| p@)
}

/// One amount-table entry on the wire: a quoted escaped address, a colon,
/// and the amount in canonical decimal text.
pub open spec fn entry_chars(e: (Seq<char>, int)) -> Seq<char> {
    seq!['"'] + json_escaped(e.0) + seq!['"', ':'] + amount_chars(e.1)
}

/// The comma-joined inside of an amount table.
pub open spec fn table_inner(es: Seq<(Seq<char>, int)>) -> Seq<char>
    decreases es.len(),
{
    if es.len() == 0 {
        Seq::empty()
    } else if es.len() == 1 {
        entry_chars(es[0])
    } else {
        table_inner(es.drop_last()) + seq![','] + entry_chars(es.last())
    }
}

/// The exact JSON text of one value.
pub open spec fn value_chars(v: SpecValue) -> Seq<char> {
    match v {
        SpecValue::Null => "null"@,
        SpecValue::Bool(b) => if b {
            "true"@
        } else {
            "false"@
        },
        SpecValue::Num(u) => amount_chars(u),
        SpecValue::Str(s) => seq!['"'] + json_escaped(s) + seq!['"'],
        SpecValue::Table(es) => seq!['{'] + table_inner(es) + seq!['}'],
    }
}

/// The comma-joined inside of the parameter array.
pub open spec fn params_inner(ps: Seq<SpecValue>) -> Seq<char>
    decreases ps.len(),
{
    if ps.len() == 0 {
        Seq::empty()
    } else if ps.len() == 1 {
        value_chars(ps[0])
    } else {
        params_inner(ps.drop_last()) + seq![','] + value_chars(ps.last())
    }
}

/// The exact JSON body of a remote call, with the protocol version and
/// correlation id fields present but unset, as the wallet interface takes
/// them.
pub open spec fn request_chars(method: Seq<char>, ps: Seq<SpecValue>) -> Seq<char> {
    "{\"jsonrpc\":\"\",\"id\":\"\",\"method\":\""@ + json_escaped(method) + "\",\"params\":["@
        + params_inner(ps) + "]}"@
}

/// Appends the JSON text of one value.
fn append_value(out: &mut String, v: &RpcValue)
    ensures
        final(out)@ == old(out)@ + value_chars(v@),
{
    match v {
        RpcValue::Null => {
            out.append("null");
        },
        RpcValue::Bool(b) => {
            if *b {
                out.append("true");
            } else {
                out.append("false");
            }
        },
        RpcValue::Num(u) => {
            let s = render_amount(*u);
            out.append(s.as_str());
        },
        RpcValue::Str(s) => {
            proof {
                reveal_strlit("\"");
                assert("\""@ =~= seq!['"']);
            }
            out.append("\"");
            let e = json_escape(s.as_str());
            out.append(e.as_str());
            out.append("\"");
            proof {
                assert(out@ =~= old(out)@ + value_chars(v@));
            }
        },
        RpcValue::Table(t) => {
            let ghost tv = t@.map_values(|e: (String, u64)| (e.0@, e.1 as int));
            proof {
                reveal_strlit("{");
                reveal_strlit("}");
                reveal_strlit(",");
                reveal_strlit("\"");
                reveal_strlit("\":");
                assert("{"@ =~= seq!['{']);
                assert("}"@ =~= seq!['}']);
                assert(","@ =~= seq![',']);
                assert("\""@ =~= seq!['"']);
                assert("\":"@ =~= seq!['"', ':']);
                assert(tv.take(0) =~= Seq::<(Seq<char>, int)>::empty());
            }
            out.append("{");
            let mut i: usize = 0;
            while i < t.len()
                invariant
                    i <= t.len(),
                    tv == t@.map_values(|e: (String, u64)| (e.0@, e.1 as int)),
                    tv.len() == t@.len(),
                    out@ == old(out)@ + seq!['{'] + table_inner(tv.take(i as int)),
                    "\""@ == seq!['"'],
                    "\":"@ == seq!['"', ':'],
                    ","@ == seq![','],
                decreases t.len() - i,
            {
                if i > 0 {
                    out.append(",");
                }
                out.append("\"");
                let e = json_escape(t[i].0.as_str());
                out.append(e.as_str());
                out.append("\":");
                let a = render_amount(t[i].1);
                out.append(a.as_str());
                proof {
                    assert(tv[i as int] == (t@[i as int].0@, t@[i as int].1 as int));
                    assert(tv.take(i + 1).drop_last() =~= tv.take(i as int));
                    assert(tv.take(i + 1).last() == tv[i as int]);
                    assert(out@ =~= old(out)@ + seq!['{'] + table_inner(tv.take(i + 1)));
                }
                i = i + 1;
            }
            out.append("}");
            proof {
                assert(tv.take(t@.len() as int) =~= tv);
                assert(out@ =~= old(out)@ + value_chars(v@));
            }
        },
    }
}

/// Encodes a remote call as its exact JSON body text.
pub fn encode_request(req: &RpcRequest) -> (body: String)
    ensures
        body@ == request_chars(req.method@, views_of(req.params@)),
{
    let ghost ps = views_of(req.params@);
    let mut out = "{\"jsonrpc\":\"\",\"id\":\"\",\"method\":\"".to_owned();
    let e = json_escape(req.method.as_str());
    out.append(e.as_str());
    out.append("\",\"params\":[");
    proof {
        reveal_strlit(",");
        assert(","@ =~= seq![',']);
        assert(ps.take(0) =~= Seq::<SpecValue>::empty());
    }
    let ghost head = "{\"jsonrpc\":\"\",\"id\":\"\",\"method\":\""@ + json_escaped(req.method@)
        + "\",\"params\":["@;
    let mut i: usize = 0;
    while i < req.params.len()
        invariant
            i <= req.params.len(),
            ps == views_of(req.params@),
            ps.len() == req.params@.len(),
            out@ == head + params_inner(ps.take(i as int)),
            ","@ == seq![','],
        decreases req.params.len() - i,
    {
        if i > 0 {
            out.append(",");
        }
        append_value(&mut out, &req.params[i]);
        proof {
            assert(ps[i as int] == req.params@[i as int]@);
            assert(ps.take(i + 1).drop_last() =~= ps.take(i as int));
            assert(ps.take(i + 1).last() == ps[i as int]);
            assert(out@ =~= head + params_inner(ps.take(i + 1)));
        }
        i = i + 1;
    }
    out.append("]}");
    proof {
        assert(ps.take(req.params@.len() as int) =~= ps);
        assert(out@ =~= request_chars(req.method@, ps));
    }
    out
}

/// Why the process must stop: the four unrecoverable error classes.
/// None of them is retried; each ends the run after being reported.
#[derive(Debug, Clone, PartialEq, Eq)]
pub enum FatalError {
    /// Subscription failure or a malformed notification event.
    Feed(String),
    /// An HTTP-level failure reaching the wallet endpoint.
    Transport(String),
    /// A non-empty error field in a response envelope.
    Rpc(String),
    /// A response result of an unexpected shape.
    Decode(String),
}

/// The response envelope of the wallet's remote call interface.
#[derive(Debug, Clone, PartialEq, Eq)]
pub struct RPCResponse {
    pub result: RpcValue,
    pub error: Option<String>,
    pub id: String,
}

impl RPCResponse {
    /// Unpacks the envelope: a carried error is fatal, exactly as carried;
    /// otherwise the raw result value comes back for further decoding.
    pub fn unpack(self) -> (r: Result<RpcValue, FatalError>)
        ensures
            (match self.error {
                Option::Some(e) => r == Result::<RpcValue, FatalError>::Err(FatalError::Rpc(e)),
                Option::None => r == Result::<RpcValue, FatalError>::Ok(self.result),
            }),
    {
        match self.error {
            Option::Some(e) => Result::Err(FatalError::Rpc(e)),
            Option::None => Result::Ok(self.result),
        }
    }
}

/// Decodes a result value as a monetary amount; any other shape is a
/// decode error.
pub fn decode_amount(v: RpcValue) -> (r: Result<u64, FatalError>)
    ensures
        (match v {
            RpcValue::Num(u) => r == Result::<u64, FatalError>::Ok(u),
            _ => r is Err && r->Err_0 is Decode,
        }),
{
    match v {
        RpcValue::Num(u) => Result::Ok(u),
        _ => Result::Err(FatalError::Decode("expected a numeric result".to_owned())),
    }
}

/// Decodes a result value as text (a transaction id); any other shape is
/// a decode error.
pub fn decode_text(v: RpcValue) -> (r: Result<String, FatalError>)
    ensures
        (match v {
            RpcValue::Str(s) => r is Ok && r->Ok_0@ == s@,
            _ => r is Err && r->Err_0 is Decode,
        }),
{
    match v {
        RpcValue::Str(s) => Result::Ok(s),
        _ => Result::Err(FatalError::Decode("expected a text result".to_owned())),
    }
}

/// The balance query: method `getbalance` with the all-accounts sentinel
/// and a minimum confirmation count of one.
pub fn getbalance_request() -> (r: RpcRequest)
    ensures
        r.method@ == "getbalance"@,
        views_of(r.params@) == seq![
            SpecValue::Str("*"@),
            SpecValue::Num(UNITS_PER_COIN as int),
        ],
{
    let mut params: Vec<RpcValue> = Vec::new();
    params.push(RpcValue::Str("*".to_owned()));
    params.push(RpcValue::Num(UNITS_PER_COIN));
    let r = RpcRequest { method: "getbalance".to_owned(), params };
    proof {
        assert(views_of(r.params@) =~= seq![
            SpecValue::Str("*"@),
            SpecValue::Num(UNITS_PER_COIN as int),
        ]);
    }
    r
}

/// The four fixed recipients with their shares of a disbursable amount:
/// sixty, twenty-five, ten and five percent, each rounded half-up to a
/// minor unit.
pub open spec fn payout_table(d: int) -> Seq<(Seq<char>, int)> {
    seq![
        ("GaMd2KZVkuxGMLoJDzQMsbPVajoCFd4RS9"@, share(d, 60)),
        ("Gap8aLe6v41t5W7hAgcL5psKYQER3GGRYn"@, share(d, 25)),
        ("GUsRaKq6X5UQE8zBWsuwYBJUNxp35zDfFi"@, share(d, 10)),
        ("GQ8osQUL25fgjaWnFJm6bHUYawPL53cUC5"@, share(d, 5)),
    ]
}

/// The four amounts of a payout table sum to the disbursable amount they
/// were split from, within one minor unit either way.
pub proof fn lemma_payout_table_completeness(d: int)
    requires
        0 <= d,
    ensures
        d - 1 <= payout_table(d)[0].1 + payout_table(d)[1].1 + payout_table(d)[2].1 + payout_table(
            d,
        )[3].1 <= d + 1,
{
    crate::money::lemma_split_completeness(d);
}

/// The payout call for a balance: the flat fee is withheld first, and the
/// four fixed recipients receive their percentage shares of what is left,
/// through `sendmany` with the empty from-account sentinel and a minimum
/// confirmation count of one.
pub fn pay_request(amount: u64) -> (r: RpcRequest)
    requires
        FEE_UNITS <= amount,
        valid_amount(amount),
    ensures
        r.method@ == "sendmany"@,
        views_of(r.params@) == seq![
            SpecValue::Str(Seq::<char>::empty()),
            SpecValue::Table(payout_table(amount - FEE_UNITS)),
            SpecValue::Num(UNITS_PER_COIN as int),
        ],
{
    let disbursable = amount - FEE_UNITS;
    let mut table: Vec<(String, u64)> = Vec::new();
    table.push(("GaMd2KZVkuxGMLoJDzQMsbPVajoCFd4RS9".to_owned(), pct_share(disbursable, 60)));
    table.push(("Gap8aLe6v41t5W7hAgcL5psKYQER3GGRYn".to_owned(), pct_share(disbursable, 25)));
    table.push(("GUsRaKq6X5UQE8zBWsuwYBJUNxp35zDfFi".to_owned(), pct_share(disbursable, 10)));
    table.push(("GQ8osQUL25fgjaWnFJm6bHUYawPL53cUC5".to_owned(), pct_share(disbursable, 5)));
    let mut params: Vec<RpcValue> = Vec::new();
    params.push(RpcValue::Str(String::new()));
    params.push(RpcValue::Table(table));
    params.push(RpcValue::Num(UNITS_PER_COIN));
    let r = RpcRequest { method: "sendmany".to_owned(), params };
    proof {
        assert(r.params@[1]@->Table_0 =~= payout_table(amount - FEE_UNITS));
        assert(views_of(r.params@) =~= seq![
            SpecValue::Str(Seq::<char>::empty()),
            SpecValue::Table(payout_table(amount - FEE_UNITS)),
            SpecValue::Num(UNITS_PER_COIN as int),
        ]);
    }
    r
}

} // verus!

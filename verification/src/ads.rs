//! The search-volume providers, as far as they are not network calls: the credentials each is built
//! from, the headers and paths it asks with, and how its answers are read.
use base64::Engine;
use vstd::prelude::*;

use crate::search::Month;
use crate::text::{chars_of, owned, parse_bounded, parse_unsigned, push_decimal, push_str, same_text, string_of};

verus! {

/// Which provider a study names.
#[derive(Clone, Copy, Debug, PartialEq, Eq, Structural)]
pub enum Provider {
    GoogleAds,
    DataForSeo,
}

/// The one place that knows the set of providers. `None`: a name nobody registered.
pub fn provider(name: &str) -> (r: Option<Provider>)
    ensures
        r == (if name@ == "google_ads"@ {
            Some(Provider::GoogleAds)
        } else if name@ == "dataforseo"@ {
            Some(Provider::DataForSeo)
        } else {
            None
        }),
{
    if same_text(name, "google_ads") {
        Some(Provider::GoogleAds)
    } else if same_text(name, "dataforseo") {
        Some(Provider::DataForSeo)
    } else {
        None
    }
}

/// A credential the environment does not hold.
#[derive(Clone, Copy, Debug, PartialEq, Eq, Structural)]
pub enum MissingVar {
    DeveloperToken,
    ClientId,
    ClientSecret,
    RefreshToken,
    CustomerId,
    Login,
    Password,
}

pub open spec fn without_dashes(s: Seq<char>) -> Seq<char>
    decreases s.len(),
{
    if s.len() == 0 {
        s
    } else if s.last() == '-' {
        without_dashes(s.drop_last())
    } else {
        without_dashes(s.drop_last()).push(s.last())
    }
}

/// Keyword Planner through the Google Ads API.
pub struct GoogleAds {
    developer_token: String,
    client_id: String,
    client_secret: String,
    refresh_token: String,
    customer_id: String,
    /// One exchange per run, shared across groups.
    access: Option<String>,
}

impl GoogleAds {
    pub closed spec fn spec_developer_token(&self) -> Seq<char> {
        self.developer_token@
    }

    pub closed spec fn spec_client_id(&self) -> Seq<char> {
        self.client_id@
    }

    pub closed spec fn spec_client_secret(&self) -> Seq<char> {
        self.client_secret@
    }

    pub closed spec fn spec_refresh_token(&self) -> Seq<char> {
        self.refresh_token@
    }

    pub closed spec fn spec_customer_id(&self) -> Seq<char> {
        self.customer_id@
    }

    pub closed spec fn spec_access(&self) -> Option<Seq<char>> {
        match self.access {
            Some(a) => Some(a@),
            None => None,
        }
    }

    /// Built from the five `GOOGLE_ADS_*` variables, each `None` where the environment does not
    /// set it. Google writes the customer id with dashes and the API path wants it without.
    pub fn from_env(
        developer_token: Option<String>,
        client_id: Option<String>,
        client_secret: Option<String>,
        refresh_token: Option<String>,
        customer_id: Option<String>,
    ) -> (r: Result<GoogleAds, MissingVar>)
        ensures
            r matches Err(e) ==> e == (if developer_token is None {
                MissingVar::DeveloperToken
            } else if client_id is None {
                MissingVar::ClientId
            } else if client_secret is None {
                MissingVar::ClientSecret
            } else if refresh_token is None {
                MissingVar::RefreshToken
            } else {
                MissingVar::CustomerId
            }),
            r is Ok <==> (developer_token is Some && client_id is Some && client_secret is Some
                && refresh_token is Some && customer_id is Some),
            r matches Ok(g) ==> {
                &&& g.spec_developer_token() == developer_token->0@
                &&& g.spec_client_id() == client_id->0@
                &&& g.spec_client_secret() == client_secret->0@
                &&& g.spec_refresh_token() == refresh_token->0@
                &&& g.spec_customer_id() == without_dashes(customer_id->0@)
                &&& g.spec_access() is None
            },
    {
        let developer_token = match developer_token {
            Some(v) => v,
            None => {
                return Err(MissingVar::DeveloperToken);
            },
        };
        let client_id = match client_id {
            Some(v) => v,
            None => {
                return Err(MissingVar::ClientId);
            },
        };
        let client_secret = match client_secret {
            Some(v) => v,
            None => {
                return Err(MissingVar::ClientSecret);
            },
        };
        let refresh_token = match refresh_token {
            Some(v) => v,
            None => {
                return Err(MissingVar::RefreshToken);
            },
        };
        let customer_id = match customer_id {
            Some(v) => strip_dashes(v.as_str()),
            None => {
                return Err(MissingVar::CustomerId);
            },
        };
        Ok(GoogleAds { developer_token, client_id, client_secret, refresh_token, customer_id, access: None })
    }

    /// Keeps the first token it is handed, as a cell initialised once.
    pub fn set_access(&mut self, token: String)
        ensures
            final(self).spec_access() == (match old(self).spec_access() {
                Some(a) => Some(a),
                None => Some(token@),
            }),
            final(self).spec_developer_token() == old(self).spec_developer_token(),
            final(self).spec_client_id() == old(self).spec_client_id(),
            final(self).spec_client_secret() == old(self).spec_client_secret(),
            final(self).spec_refresh_token() == old(self).spec_refresh_token(),
            final(self).spec_customer_id() == old(self).spec_customer_id(),
    {
        if self.access.is_none() {
            self.access = Some(token);
        }
    }

    pub fn access(&self) -> (r: Option<&str>)
        ensures
            match r {
                Some(a) => self.spec_access() == Some(a@),
                None => self.spec_access() is None,
            },
    {
        match &self.access {
            Some(a) => Some(a.as_str()),
            None => None,
        }
    }

    /// The form the token endpoint is sent to refresh the access token.
    pub fn token_form(&self) -> (r: [(&'static str, &str); 4])
        ensures
            r[0].0@ == "client_id"@ && r[0].1@ == self.spec_client_id(),
            r[1].0@ == "client_secret"@ && r[1].1@ == self.spec_client_secret(),
            r[2].0@ == "refresh_token"@ && r[2].1@ == self.spec_refresh_token(),
            r[3].0@ == "grant_type"@ && r[3].1@ == "refresh_token"@,
    {
        [
            ("client_id", self.client_id.as_str()),
            ("client_secret", self.client_secret.as_str()),
            ("refresh_token", self.refresh_token.as_str()),
            ("grant_type", "refresh_token"),
        ]
    }

    /// The keyword-ideas request's headers: the access token as `Authorization`, and the
    /// developer token. `None` until a token has been obtained.
    pub fn headers(&self) -> (r: Option<[(&'static str, &str); 2]>)
        ensures
            r is Some <==> self.spec_access() is Some,
            r matches Some(h) ==> {
                &&& h[0].0@ == "Authorization"@
                &&& Some(h[0].1@) == self.spec_access()
                &&& h[1].0@ == "developer-token"@
                &&& h[1].1@ == self.spec_developer_token()
            },
    {
        match &self.access {
            Some(a) => Some([("Authorization", a.as_str()), ("developer-token", self.developer_token.as_str())]),
            None => None,
        }
    }

    /// Where keyword ideas are asked for this account.
    pub fn ideas_url(&self) -> (s: String)
        ensures
            s@ == "https://googleads.googleapis.com/v21/customers/"@ + self.spec_customer_id() + ":generateKeywordIdeas"@,
    {
        let mut v: Vec<char> = Vec::new();
        push_str(&mut v, "https://googleads.googleapis.com/v21/customers/");
        push_str(&mut v, self.customer_id.as_str());
        push_str(&mut v, ":generateKeywordIdeas");
        string_of(&v)
    }
}

pub fn api() -> (s: &'static str)
    ensures
        s@ == "https://googleads.googleapis.com/v21"@,
{
    "https://googleads.googleapis.com/v21"
}

fn strip_dashes(s: &str) -> (r: String)
    ensures
        r@ == without_dashes(s@),
{
    let v = chars_of(s);
    let mut out: Vec<char> = Vec::new();
    let mut i: usize = 0;
    while i < v.len()
        invariant
            i <= v@.len(),
            out@ == without_dashes(v@.take(i as int)),
        decreases v@.len() - i,
    {
        assert(v@.take(i + 1).drop_last() =~= v@.take(i as int));
        if v[i] != '-' {
            out.push(v[i]);
        }
        i += 1;
    }
    assert(v@.take(i as int) =~= v@);
    string_of(&out)
}

/// The ISO-639-1 codes Google publishes a language constant for that the tool knows.
pub open spec fn language_id(lang: Seq<char>) -> Option<u32> {
    if lang == "en"@ {
        Some(1000)
    } else if lang == "de"@ {
        Some(1001)
    } else if lang == "es"@ {
        Some(1003)
    } else if lang == "fr"@ {
        Some(1040)
    } else if lang == "it"@ {
        Some(1004)
    } else {
        None
    }
}

/// Distinct languages are asked for under distinct constants, each Google's own: English 1000,
/// German 1001, Spanish 1003, Italian 1004, French 1040, and no other code has one.
pub proof fn each_language_has_its_own_constant(a: Seq<char>, b: Seq<char>)
    ensures
        language_id(a) is Some && language_id(a) == language_id(b) ==> a == b,
        language_id(a) == Some(1000u32) <==> a == seq!['e', 'n'],
        language_id(a) == Some(1001u32) <==> a == seq!['d', 'e'],
        language_id(a) == Some(1003u32) <==> a == seq!['e', 's'],
        language_id(a) == Some(1004u32) <==> a == seq!['i', 't'],
        language_id(a) == Some(1040u32) <==> a == seq!['f', 'r'],
        language_id(a) is Some ==> a.len() == 2,
{
    reveal_strlit("en");
    reveal_strlit("de");
    reveal_strlit("es");
    reveal_strlit("fr");
    reveal_strlit("it");
    assert("en"@ =~= seq!['e', 'n']);
    assert("de"@ =~= seq!['d', 'e']);
    assert("es"@ =~= seq!['e', 's']);
    assert("fr"@ =~= seq!['f', 'r']);
    assert("it"@ =~= seq!['i', 't']);
}

/// `languageConstants/{id}` for a language code; `None` for one the table lacks.
pub fn language(lang: &str) -> (r: Option<String>)
    ensures
        r is Some <==> language_id(lang@) is Some,
        r matches Some(s) ==> s@ == "languageConstants/"@ + crate::text::decimal(language_id(lang@)->0 as nat),
{
    let id: u32 = if same_text(lang, "en") {
        1000
    } else if same_text(lang, "de") {
        1001
    } else if same_text(lang, "es") {
        1003
    } else if same_text(lang, "fr") {
        1040
    } else if same_text(lang, "it") {
        1004
    } else {
        return None;
    };
    let mut v: Vec<char> = Vec::new();
    push_str(&mut v, "languageConstants/");
    push_decimal(&mut v, id as u64);
    Some(string_of(&v))
}

/// The city a canonical place name starts with: the text before its first comma. `None` where that
/// is empty, so that no closest match can answer for it.
pub fn city(place: &str) -> (r: Option<String>)
    ensures
        r is Some <==> crate::grid::first_code(place@).len() > 0,
        r matches Some(c) ==> c@ == crate::grid::first_code(place@),
{
    let c = crate::grid::place_code(place);
    if c.as_str().is_empty() {
        None
    } else {
        Some(c)
    }
}

/// The suggestion whose canonical name is the place, exactly: the first, where several are.
pub open spec fn canonical_hit(place: Seq<char>, canonical: Seq<String>) -> Option<int> {
    crate::find::index_of(canonical, place)
}

pub fn pick_target(place: &str, canonical: &Vec<String>) -> (r: Option<usize>)
    ensures
        r is None <==> canonical_hit(place@, canonical@) is None,
        r matches Some(k) ==> canonical_hit(place@, canonical@) == Some(k as int),
{
    crate::find::position(canonical, place)
}

pub open spec fn month_names() -> Seq<Seq<char>> {
    seq![
        "JANUARY"@,
        "FEBRUARY"@,
        "MARCH"@,
        "APRIL"@,
        "MAY"@,
        "JUNE"@,
        "JULY"@,
        "AUGUST"@,
        "SEPTEMBER"@,
        "OCTOBER"@,
        "NOVEMBER"@,
        "DECEMBER"@,
    ]
}

/// The month an API spells out in capitals, numbered from 1.
pub fn month_number(name: &str) -> (r: Option<u8>)
    ensures
        r is None <==> !month_names().contains(name@),
        r matches Some(m) ==> 1 <= m <= 12 && month_names()[m - 1] == name@,
{
    let names: [&str; 12] = [
        "JANUARY",
        "FEBRUARY",
        "MARCH",
        "APRIL",
        "MAY",
        "JUNE",
        "JULY",
        "AUGUST",
        "SEPTEMBER",
        "OCTOBER",
        "NOVEMBER",
        "DECEMBER",
    ];
    assert(names@.map_values(|n: &str| n@) =~= month_names());
    let mut i: usize = 0;
    while i < 12
        invariant
            i <= 12,
            names@.map_values(|n: &str| n@) == month_names(),
            forall|k: int| 0 <= k < i ==> month_names()[k] != name@,
        decreases 12 - i,
    {
        assert(names@.map_values(|n: &str| n@)[i as int] == names@[i as int]@);
        if same_text(names[i], name) {
            return Some((i + 1) as u8);
        }
        i += 1;
    }
    assert forall|k: int| 0 <= k < month_names().len() implies month_names()[k] != name@ by {}
    None
}

/// Why a monthly volume cannot be read.
#[derive(Clone, Copy, Debug, PartialEq, Eq, Structural)]
pub enum MonthError {
    Year,
    Month,
    Searches,
}

/// One monthly volume as Keyword Planner writes it: the year and the count as decimal text, the
/// month spelled out. The count is absent, not zero, when nobody searched.
pub open spec fn month_verdict(year: Seq<char>, month: Seq<char>, searches: Option<Seq<char>>) -> Result<
    (int, int),
    MonthError,
> {
    if !(parse_unsigned(year) matches Some(y) && y <= u16::MAX) {
        Err(MonthError::Year)
    } else if !month_names().contains(month) {
        Err(MonthError::Month)
    } else if searches matches Some(s) && !(parse_unsigned(s) matches Some(x) && x <= u64::MAX) {
        Err(MonthError::Searches)
    } else {
        Ok(
            (
                parse_unsigned(year)->0,
                match searches {
                    Some(s) => parse_unsigned(s)->0,
                    None => 0,
                },
            ),
        )
    }
}

pub fn read_month(year: &str, month: &str, searches: Option<&str>) -> (r: Result<Month, MonthError>)
    ensures
        month_verdict(
            year@,
            month@,
            match searches {
                Some(s) => Some(s@),
                None => None,
            },
        ) == (match r {
            Ok(m) => Ok((m.year as int, m.searches as int)),
            Err(e) => Err(e),
        }),
        r matches Ok(m) ==> 1 <= m.month <= 12 && month_names()[m.month - 1] == month@,
{
    proof {
        crate::text::lemma_parse_unsigned_nonneg(year@);
        if let Some(s) = searches {
            crate::text::lemma_parse_unsigned_nonneg(s@);
        }
    }
    let y = chars_of(year);
    let year_n = match parse_bounded(&y, 0, y.len(), 0xffff) {
        Some(n) => n as u16,
        None => {
            assert(y@.subrange(0, y@.len() as int) =~= year@);
            return Err(MonthError::Year);
        },
    };
    assert(y@.subrange(0, y@.len() as int) =~= year@);
    let month_n = match month_number(month) {
        Some(m) => m,
        None => {
            return Err(MonthError::Month);
        },
    };
    let searches_n: u64 = match searches {
        Some(s) => {
            let c = chars_of(s);
            assert(c@.subrange(0, c@.len() as int) =~= s@);
            match parse_bounded(&c, 0, c.len(), 0xffff_ffff_ffff_ffff) {
                Some(n) => n,
                None => {
                    return Err(MonthError::Searches);
                },
            }
        },
        None => 0,
    };
    Ok(Month { year: year_n, month: month_n, searches: searches_n })
}

/// The standard base64 alphabet (RFC 4648): `A`–`Z`, `a`–`z`, `0`–`9`, `+`, `/`.
pub open spec fn b64_digit(v: int) -> char {
    if v < 26 {
        (('A' as int) + v) as char
    } else if v < 52 {
        (('a' as int) + v - 26) as char
    } else if v < 62 {
        (('0' as int) + v - 52) as char
    } else if v == 62 {
        '+'
    } else {
        '/'
    }
}

/// Standard base64 with padding: each three bytes become four digits of six bits, most
/// significant first; a last one or two bytes are padded with `=` to four.
pub open spec fn base64(b: Seq<u8>) -> Seq<char>
    decreases b.len(),
{
    if b.len() == 0 {
        Seq::empty()
    } else if b.len() == 1 {
        let n = b[0] as int * 65536;
        seq![b64_digit(n / 262144), b64_digit(n / 4096 % 64), '=', '=']
    } else if b.len() == 2 {
        let n = b[0] as int * 65536 + b[1] as int * 256;
        seq![b64_digit(n / 262144), b64_digit(n / 4096 % 64), b64_digit(n / 64 % 64), '=']
    } else {
        let n = b[0] as int * 65536 + b[1] as int * 256 + b[2] as int;
        seq![b64_digit(n / 262144), b64_digit(n / 4096 % 64), b64_digit(n / 64 % 64), b64_digit(n % 64)]
            + base64(b.skip(3))
    }
}

/// `base64::engine::general_purpose::STANDARD.encode` over the text's UTF-8 bytes. It panics only
/// where the encoded length overflows `usize`, which the bound on the text rules out.
#[verifier::external_body]
fn b64_encode(s: &str) -> (r: String)
    requires
        s@.len() <= usize::MAX / 8,
    ensures
        r@ == base64(vstd::utf8::encode_utf8(s@)),
{
    base64::engine::general_purpose::STANDARD.encode(s.as_bytes())
}

/// DataForSEO resells the same Keyword Planner numbers, behind HTTP basic authentication.
pub struct DataForSeo {
    auth: String,
}

impl DataForSeo {
    pub closed spec fn spec_auth(&self) -> Seq<char> {
        self.auth@
    }

    /// Built from `DATAFORSEO_LOGIN` and `DATAFORSEO_PASSWORD`, each `None` where unset.
    pub fn from_env(login: Option<String>, password: Option<String>) -> (r: Result<DataForSeo, MissingVar>)
        requires
            login matches Some(l) ==> l@.len() <= usize::MAX / 32,
            password matches Some(p) ==> p@.len() <= usize::MAX / 32,
        ensures
            r matches Err(e) ==> e == (if login is None {
                MissingVar::Login
            } else {
                MissingVar::Password
            }),
            r is Ok <==> login is Some && password is Some,
            r matches Ok(d) ==> d.spec_auth() == "Basic "@ + base64(
                vstd::utf8::encode_utf8(login->0@ + ":"@ + password->0@),
            ),
    {
        let login = match login {
            Some(l) => l,
            None => {
                return Err(MissingVar::Login);
            },
        };
        let password = match password {
            Some(p) => p,
            None => {
                return Err(MissingVar::Password);
            },
        };
        let mut pair: Vec<char> = Vec::new();
        push_str(&mut pair, login.as_str());
        push_str(&mut pair, ":");
        push_str(&mut pair, password.as_str());
        let joined = string_of(&pair);
        proof {
            reveal_strlit(":");
        }
        let mut v: Vec<char> = Vec::new();
        push_str(&mut v, "Basic ");
        push_str(&mut v, b64_encode(joined.as_str()).as_str());
        Ok(DataForSeo { auth: string_of(&v) })
    }

    /// The one header every request carries.
    pub fn headers(&self) -> (r: [(&'static str, &str); 1])
        ensures
            r[0].0@ == "Authorization"@,
            r[0].1@ == self.spec_auth(),
    {
        [("Authorization", self.auth.as_str())]
    }
}

} // verus!

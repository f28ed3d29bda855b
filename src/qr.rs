//! The results-screen QR code: its `ftc.events` URL and what it names.
use vstd::prelude::*;
use crate::match_key::MatchKey;
use crate::text::{chars_of, parse_u64, parse_u64_spec};

verus! {

/// Match named by a results QR, with numbers as the URL writes them (the
/// tiebreaker number is not shifted as in `MatchKey`).
#[derive(Debug, Clone, Copy, PartialEq, Eq, Structural, Hash)]
pub enum MatchType {
    Qualification {
        /// Match number
        num: u64,
    },
    Playoff {
        /// Match number
        num: u64,
        /// Tiebreaker number from the URL
        tiebreaker: u64,
    },
}

/// Decoded results QR.
#[derive(Debug, Clone, PartialEq, Eq)]
pub struct FTCEventsQR {
    pub event_code: String,
    pub match_type: MatchType,
}

/// The table key under which a results QR is filed: the same numbers. The
/// URL's tiebreaker number is kept as written and not shifted: `MatchKey`
/// counts the first playing of a playoff as 1, and whether the URL counts the
/// same way is not settled, so this filing is a choice, not a derivation.
pub open spec fn key_of_type(t: MatchType) -> MatchKey {
    match t {
        MatchType::Qualification { num } => MatchKey::Qualification { num },
        MatchType::Playoff { num, tiebreaker } => MatchKey::Playoff { num, tiebreaker },
    }
}

impl MatchType {
    /// The table key for this match: the same numbers.
    pub fn key(&self) -> (r: MatchKey)
        ensures
            r == key_of_type(*self),
    {
        match *self {
            MatchType::Qualification { num } => MatchKey::Qualification { num },
            MatchType::Playoff { num, tiebreaker } => MatchKey::Playoff { num, tiebreaker },
        }
    }
}

/// Why a decoded QR payload is not a results link.
#[derive(Debug, Clone, Copy, PartialEq, Eq, Structural)]
pub enum QrUrlError {
    /// The payload is not a URL.
    InvalidUrl,
    /// The URL has no host.
    NoHost,
    /// The host is not `ftc.events`.
    WrongHost,
    /// The URL has no path segments.
    NoPath,
    /// The path is neither `/{event}/qualifications/{n}` nor
    /// `/{event}/playoffs/{n}/{tiebreaker}`.
    UnknownPath,
    /// A match number does not read as one.
    InvalidNumber,
}

/// Host and path segments of a parsed URL.
pub struct UrlParts {
    pub host: Option<String>,
    pub segments: Option<Vec<String>>,
}

/// Whether `url::Url::parse` accepts `s`.
pub uninterp spec fn url_parses(s: Seq<char>) -> bool;

/// `host_str` of the URL that `url::Url::parse` reads from `s`.
pub uninterp spec fn url_host(s: Seq<char>) -> Option<Seq<char>>;

/// `path_segments` of the URL that `url::Url::parse` reads from `s`.
pub uninterp spec fn url_path_segments(s: Seq<char>) -> Option<Seq<Seq<char>>>;

pub open spec fn opt_text(o: Option<String>) -> Option<Seq<char>> {
    match o {
        Some(s) => Some(s@),
        None => None,
    }
}

pub open spec fn opt_texts(o: Option<Vec<String>>) -> Option<Seq<Seq<char>>> {
    match o {
        Some(v) => Some(v@.map_values(|s: String| s@)),
        None => None,
    }
}

pub open spec fn host_word() -> Seq<char> {
    seq!['f', 't', 'c', '.', 'e', 'v', 'e', 'n', 't', 's']
}

pub open spec fn qualifications_word() -> Seq<char> {
    seq!['q', 'u', 'a', 'l', 'i', 'f', 'i', 'c', 'a', 't', 'i', 'o', 'n', 's']
}

pub open spec fn playoffs_word() -> Seq<char> {
    seq!['p', 'l', 'a', 'y', 'o', 'f', 'f', 's']
}

/// Event code and match named by a URL with this host and these path
/// segments.
pub open spec fn qr_from_parts(host: Option<Seq<char>>, segs: Option<Seq<Seq<char>>>) -> Result<
    (Seq<char>, MatchType),
    QrUrlError,
> {
    match host {
        None => Err(QrUrlError::NoHost),
        Some(h) => if h != host_word() {
            Err(QrUrlError::WrongHost)
        } else {
            match segs {
                None => Err(QrUrlError::NoPath),
                Some(p) => if p.len() >= 3 && p[1] == qualifications_word() {
                    match parse_u64_spec(p[2]) {
                        Some(n) => Ok((p[0], MatchType::Qualification { num: n })),
                        None => Err(QrUrlError::InvalidNumber),
                    }
                } else if p.len() >= 4 && p[1] == playoffs_word() {
                    match (parse_u64_spec(p[2]), parse_u64_spec(p[3])) {
                        (Some(n), Some(tb)) => Ok(
                            (p[0], MatchType::Playoff { num: n, tiebreaker: tb }),
                        ),
                        _ => Err(QrUrlError::InvalidNumber),
                    }
                } else {
                    Err(QrUrlError::UnknownPath)
                },
            }
        },
    }
}

/// Event code and match named by the URL text `s`.
pub open spec fn qr_from_url(s: Seq<char>) -> Result<(Seq<char>, MatchType), QrUrlError> {
    if url_parses(s) {
        qr_from_parts(url_host(s), url_path_segments(s))
    } else {
        Err(QrUrlError::InvalidUrl)
    }
}

pub open spec fn qr_view(r: Result<FTCEventsQR, QrUrlError>) -> Result<
    (Seq<char>, MatchType),
    QrUrlError,
> {
    match r {
        Ok(q) => Ok((q.event_code@, q.match_type)),
        Err(e) => Err(e),
    }
}

/// The results link that a decoded payload holds, if it holds one.
pub open spec fn payload_qr(p: Option<Seq<char>>) -> Option<(Seq<char>, MatchType)> {
    match p {
        Some(s) => match qr_from_url(s) {
            Ok(v) => Some(v),
            Err(_) => None,
        },
        None => None,
    }
}

/// The first payload that holds a results link.
pub open spec fn first_qr(ps: Seq<Option<Seq<char>>>) -> Option<(Seq<char>, MatchType)>
    decreases ps.len(),
{
    if ps.len() == 0 {
        None
    } else {
        match payload_qr(ps[0]) {
            Some(v) => Some(v),
            None => first_qr(ps.drop_first()),
        }
    }
}

/// Relies on `url::Url::parse`, and on `Url::host_str` and
/// `Url::path_segments` of the parsed URL: the three depend on the text
/// alone.
#[verifier::external_body]
fn parse_url(s: &str) -> (r: Option<UrlParts>)
    ensures
        r is Some == url_parses(s@),
        r is Some ==> opt_text(r->0.host) == url_host(s@) && opt_texts(r->0.segments)
            == url_path_segments(s@),
{
    url::Url::parse(s).ok().map(
        |u| UrlParts {
            host: u.host_str().map(String::from),
            segments: u.path_segments().map(|p| p.map(String::from).collect()),
        },
    )
}

fn word_is(a: &String, exec_lit: &Vec<char>) -> (r: bool)
    ensures
        r == (a@ == exec_lit@),
{
    let cs = chars_of(a.as_str());
    if cs.len() != exec_lit.len() {
        return false;
    }
    let mut i: usize = 0;
    while i < cs.len()
        invariant
            cs@.len() == exec_lit@.len(),
            cs@ == a@,
            i <= cs@.len(),
            forall|j: int| 0 <= j < i ==> cs@[j] == exec_lit@[j],
        decreases cs@.len() - i,
    {
        if cs[i] != exec_lit[i] {
            return false;
        }
        i = i + 1;
    }
    assert(cs@ =~= exec_lit@);
    true
}

fn number_of(s: &String) -> (r: Option<u64>)
    ensures
        r == parse_u64_spec(s@),
{
    parse_u64(&chars_of(s.as_str()))
}

impl FTCEventsQR {
    /// Event code and match from the host and path segments of a URL.
    pub fn from_url_parts(host: &Option<String>, segments: &Option<Vec<String>>) -> (r: Result<
        FTCEventsQR,
        QrUrlError,
    >)
        ensures
            qr_view(r) == qr_from_parts(opt_text(*host), opt_texts(*segments)),
    {
        proof {
            reveal_strlit("ftc.events");
            reveal_strlit("qualifications");
            reveal_strlit("playoffs");
        }
        let host_lit = chars_of("ftc.events");
        let qual_lit = chars_of("qualifications");
        let play_lit = chars_of("playoffs");
        assert(host_lit@ =~= host_word());
        assert(qual_lit@ =~= qualifications_word());
        assert(play_lit@ =~= playoffs_word());
        let h = match host {
            None => return Err(QrUrlError::NoHost),
            Some(h) => h,
        };
        if !word_is(h, &host_lit) {
            return Err(QrUrlError::WrongHost);
        }
        let p = match segments {
            None => return Err(QrUrlError::NoPath),
            Some(p) => p,
        };
        let ghost pv = p@.map_values(|s: String| s@);
        assert(pv.len() == p@.len());
        assert(forall|i: int| 0 <= i < pv.len() ==> #[trigger] pv[i] == p@[i]@);
        if p.len() >= 3 && word_is(&p[1], &qual_lit) {
            match number_of(&p[2]) {
                Some(n) => Ok(
                    FTCEventsQR {
                        event_code: p[0].clone(),
                        match_type: MatchType::Qualification { num: n },
                    },
                ),
                None => Err(QrUrlError::InvalidNumber),
            }
        } else if p.len() >= 4 && word_is(&p[1], &play_lit) {
            match (number_of(&p[2]), number_of(&p[3])) {
                (Some(n), Some(tb)) => Ok(
                    FTCEventsQR {
                        event_code: p[0].clone(),
                        match_type: MatchType::Playoff { num: n, tiebreaker: tb },
                    },
                ),
                _ => Err(QrUrlError::InvalidNumber),
            }
        } else {
            Err(QrUrlError::UnknownPath)
        }
    }

    /// Reads a results link `https://ftc.events/{event}/qualifications/{n}`
    /// or `https://ftc.events/{event}/playoffs/{n}/{tiebreaker}` (later
    /// segments ignored).
    pub fn new(url: &str) -> (r: Result<FTCEventsQR, QrUrlError>)
        ensures
            qr_view(r) == qr_from_url(url@),
    {
        match parse_url(url) {
            None => Err(QrUrlError::InvalidUrl),
            Some(parts) => FTCEventsQR::from_url_parts(&parts.host, &parts.segments),
        }
    }
}

pub open spec fn opt_qr_view(r: Option<FTCEventsQR>) -> Option<(Seq<char>, MatchType)> {
    match r {
        Some(q) => Some((q.event_code@, q.match_type)),
        None => None,
    }
}

/// The results link among the payloads that a QR decoder read from the
/// results-screen region (`None` for a code it could not decode): the first
/// payload that is one.
pub fn detect_qr(payloads: &Vec<Option<String>>) -> (r: Option<FTCEventsQR>)
    ensures
        opt_qr_view(r) == first_qr(payloads@.map_values(|p: Option<String>| opt_text(p))),
{
    let ghost ps = payloads@.map_values(|p: Option<String>| opt_text(p));
    let mut i: usize = 0;
    assert(ps.subrange(0, ps.len() as int) == ps);
    while i < payloads.len()
        invariant
            i <= payloads@.len(),
            ps == payloads@.map_values(|p: Option<String>| opt_text(p)),
            first_qr(ps) == first_qr(ps.subrange(i as int, ps.len() as int)),
        decreases payloads@.len() - i,
    {
        let ghost rest = ps.subrange(i as int, ps.len() as int);
        assert(rest[0] == opt_text(payloads@[i as int]));
        assert(rest.drop_first() =~= ps.subrange(i + 1, ps.len() as int));
        match &payloads[i] {
            Some(s) => {
                match FTCEventsQR::new(s.as_str()) {
                    Ok(q) => {
                        return Some(q);
                    },
                    Err(_) => {},
                }
            },
            None => {},
        }
        i = i + 1;
    }
    None
}

} // verus!

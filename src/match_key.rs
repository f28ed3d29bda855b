//! Identity of a played match, its text form and its order.
use vstd::prelude::*;
use crate::text::{
    append_decimal, chars_of, decimal, lemma_decimal_digits, lemma_decimal_parses,
    lemma_words_append_word, lemma_words_append_ws, no_ws, parse_u64, parse_u64_spec, split_words,
    words,
};

verus! {

/// Canonical identity of a played match.
#[derive(Debug, Clone, Copy, PartialEq, Eq, Structural, Hash, Ord)]
pub enum MatchKey {
    Qualification {
        /// Match number
        num: u64,
    },
    Playoff {
        /// Match number
        num: u64,
        /// Tiebreaker count: 1 for the first playing, 2 for the first
        /// tiebreaker, `k + 1` for "Tiebreaker k".
        tiebreaker: u64,
    },
}

/// Why a text is not a match name.
#[derive(Debug, Clone, Copy, PartialEq, Eq, Structural)]
pub enum KeyParseError {
    /// The words do not have the shape of any match name.
    UnknownFormat,
    /// The shape is right but a number does not read as one.
    InvalidNumber,
}

pub open spec fn qualification_word() -> Seq<char> {
    seq!['Q', 'u', 'a', 'l', 'i', 'f', 'i', 'c', 'a', 't', 'i', 'o', 'n']
}

pub open spec fn playoff_word() -> Seq<char> {
    seq!['P', 'l', 'a', 'y', 'o', 'f', 'f']
}

pub open spec fn match_word() -> Seq<char> {
    seq!['M', 'a', 't', 'c', 'h']
}

pub open spec fn tiebreaker_word() -> Seq<char> {
    seq!['T', 'i', 'e', 'b', 'r', 'e', 'a', 'k', 'e', 'r']
}

/// The number written after "Tiebreaker" for a stored count `t`.
pub open spec fn tiebreaker_shown(t: u64) -> u64 {
    if t == 0 { u64::MAX } else { (t - 1) as u64 }
}

/// The text form of a key.
pub open spec fn key_text(k: MatchKey) -> Seq<char> {
    match k {
        MatchKey::Qualification { num } => qualification_word() + seq![' '] + decimal(num as nat),
        MatchKey::Playoff { num, tiebreaker } => {
            let base = playoff_word() + seq![' '] + match_word() + seq![' '] + decimal(num as nat);
            if tiebreaker == 1 {
                base
            } else if tiebreaker == 2 {
                base + seq![' '] + tiebreaker_word()
            } else {
                base + seq![' '] + tiebreaker_word() + seq![' '] + decimal(
                    tiebreaker_shown(tiebreaker) as nat,
                )
            }
        },
    }
}

pub open spec fn number_or_invalid(s: Seq<char>) -> Result<u64, KeyParseError> {
    match parse_u64_spec(s) {
        Some(v) => Ok(v),
        None => Err(KeyParseError::InvalidNumber),
    }
}

/// Reading of a match name from its whitespace-separated words. The first
/// shape that fits decides:
/// `Qualification n ..`, `.. Match n`, `.. Match n Tiebreaker`,
/// `.. Match n Tiebreaker k`.
pub open spec fn parse_key_spec(s: Seq<char>) -> Result<MatchKey, KeyParseError> {
    let t = words(s);
    let n = t.len();
    if n >= 2 && t[0] == qualification_word() {
        match number_or_invalid(t[1]) {
            Ok(v) => Ok(MatchKey::Qualification { num: v }),
            Err(e) => Err(e),
        }
    } else if n >= 2 && t[n - 2] == match_word() {
        match number_or_invalid(t[n - 1]) {
            Ok(v) => Ok(MatchKey::Playoff { num: v, tiebreaker: 1 }),
            Err(e) => Err(e),
        }
    } else if n >= 3 && t[n - 3] == match_word() && t[n - 1] == tiebreaker_word() {
        match number_or_invalid(t[n - 2]) {
            Ok(v) => Ok(MatchKey::Playoff { num: v, tiebreaker: 2 }),
            Err(e) => Err(e),
        }
    } else if n >= 4 && t[n - 4] == match_word() && t[n - 2] == tiebreaker_word() {
        match (parse_u64_spec(t[n - 3]), parse_u64_spec(t[n - 1])) {
            (Some(v), Some(k)) => if k < u64::MAX {
                Ok(MatchKey::Playoff { num: v, tiebreaker: (k + 1) as u64 })
            } else {
                Err(KeyParseError::InvalidNumber)
            },
            _ => Err(KeyParseError::InvalidNumber),
        }
    } else {
        Err(KeyParseError::UnknownFormat)
    }
}

/// Strict order on keys: every qualification before every playoff, and
/// within a kind by `(num, tiebreaker)`.
pub open spec fn key_lt(a: MatchKey, b: MatchKey) -> bool {
    match (a, b) {
        (MatchKey::Qualification { num: x }, MatchKey::Qualification { num: y }) => x < y,
        (MatchKey::Qualification { .. }, MatchKey::Playoff { .. }) => true,
        (MatchKey::Playoff { .. }, MatchKey::Qualification { .. }) => false,
        (
            MatchKey::Playoff { num: n1, tiebreaker: t1 },
            MatchKey::Playoff { num: n2, tiebreaker: t2 },
        ) => n1 < n2 || (n1 == n2 && t1 < t2),
    }
}

pub open spec fn key_cmp(a: MatchKey, b: MatchKey) -> core::cmp::Ordering {
    if key_lt(a, b) {
        core::cmp::Ordering::Less
    } else if a == b {
        core::cmp::Ordering::Equal
    } else {
        core::cmp::Ordering::Greater
    }
}

fn word_eq(a: &Vec<char>, b: &Vec<char>) -> (r: bool)
    ensures
        r == (a@ == b@),
{
    if a.len() != b.len() {
        return false;
    }
    let mut i: usize = 0;
    while i < a.len()
        invariant
            a@.len() == b@.len(),
            i <= a@.len(),
            forall|j: int| 0 <= j < i ==> a@[j] == b@[j],
        decreases a@.len() - i,
    {
        if a[i] != b[i] {
            return false;
        }
        i = i + 1;
    }
    assert(a@ =~= b@);
    true
}

fn number_or_invalid_exec(s: &Vec<char>) -> (r: Result<u64, KeyParseError>)
    ensures
        r == number_or_invalid(s@),
{
    match parse_u64(s) {
        Some(v) => Ok(v),
        None => Err(KeyParseError::InvalidNumber),
    }
}

impl MatchKey {
    /// Reads a match name such as "Qualification 7" or
    /// "Playoff Match 3 Tiebreaker 2".
    pub fn parse(s: &str) -> (r: Result<MatchKey, KeyParseError>)
        ensures
            r == parse_key_spec(s@),
    {
        proof {
            reveal_strlit("Qualification");
            reveal_strlit("Match");
            reveal_strlit("Tiebreaker");
        }
        let qual = chars_of("Qualification");
        let mat = chars_of("Match");
        let tie = chars_of("Tiebreaker");
        assert(qual@ =~= qualification_word());
        assert(mat@ =~= match_word());
        assert(tie@ =~= tiebreaker_word());
        let cs = chars_of(s);
        let t = split_words(&cs);
        let ghost tv = t@.map_values(|w: Vec<char>| w@);
        assert(tv == words(s@));
        let n = t.len();
        assert(n == tv.len());
        assert(forall|i: int| 0 <= i < n ==> #[trigger] tv[i] == t@[i]@);
        if n >= 2 && word_eq(&t[0], &qual) {
            match number_or_invalid_exec(&t[1]) {
                Ok(v) => Ok(MatchKey::Qualification { num: v }),
                Err(e) => Err(e),
            }
        } else if n >= 2 && word_eq(&t[n - 2], &mat) {
            match number_or_invalid_exec(&t[n - 1]) {
                Ok(v) => Ok(MatchKey::Playoff { num: v, tiebreaker: 1 }),
                Err(e) => Err(e),
            }
        } else if n >= 3 && word_eq(&t[n - 3], &mat) && word_eq(&t[n - 1], &tie) {
            match number_or_invalid_exec(&t[n - 2]) {
                Ok(v) => Ok(MatchKey::Playoff { num: v, tiebreaker: 2 }),
                Err(e) => Err(e),
            }
        } else if n >= 4 && word_eq(&t[n - 4], &mat) && word_eq(&t[n - 2], &tie) {
            match (parse_u64(&t[n - 3]), parse_u64(&t[n - 1])) {
                (Some(v), Some(k)) => if k < u64::MAX {
                    Ok(MatchKey::Playoff { num: v, tiebreaker: k + 1 })
                } else {
                    Err(KeyParseError::InvalidNumber)
                },
                _ => Err(KeyParseError::InvalidNumber),
            }
        } else {
            Err(KeyParseError::UnknownFormat)
        }
    }

    /// The text form: "Qualification n", "Playoff Match n",
    /// "Playoff Match n Tiebreaker" or "Playoff Match n Tiebreaker k".
    pub fn to_string(&self) -> (r: String)
        ensures
            r@ == key_text(*self),
    {
        proof {
            reveal_strlit("Qualification ");
            reveal_strlit("Playoff Match ");
            reveal_strlit(" Tiebreaker");
            reveal_strlit(" ");
        }
        match *self {
            MatchKey::Qualification { num } => {
                let mut s = String::from_str("Qualification ");
                assert(s@ =~= qualification_word() + seq![' ']);
                append_decimal(&mut s, num);
                s
            },
            MatchKey::Playoff { num, tiebreaker } => {
                let mut s = String::from_str("Playoff Match ");
                assert(s@ =~= playoff_word() + seq![' '] + match_word() + seq![' ']);
                append_decimal(&mut s, num);
                if tiebreaker != 1 {
                    s.append(" Tiebreaker");
                    if tiebreaker != 2 {
                        s.append(" ");
                        append_decimal(&mut s, tiebreaker.wrapping_sub(1));
                    }
                }
                assert(s@ =~= key_text(*self));
                s
            },
        }
    }

    /// Whether `self` comes strictly before `other`.
    pub fn precedes(&self, other: &MatchKey) -> (r: bool)
        ensures
            r == key_lt(*self, *other),
    {
        match self.compare(other) {
            core::cmp::Ordering::Less => true,
            _ => false,
        }
    }

    /// Three-way comparison in the order of `key_lt`.
    pub fn compare(&self, other: &MatchKey) -> (r: core::cmp::Ordering)
        ensures
            r == key_cmp(*self, *other),
    {
        match (*self, *other) {
            (MatchKey::Qualification { num: x }, MatchKey::Qualification { num: y }) => {
                if x < y {
                    core::cmp::Ordering::Less
                } else if x == y {
                    core::cmp::Ordering::Equal
                } else {
                    core::cmp::Ordering::Greater
                }
            },
            (MatchKey::Qualification { .. }, MatchKey::Playoff { .. }) => core::cmp::Ordering::Less,
            (MatchKey::Playoff { .. }, MatchKey::Qualification { .. }) => {
                core::cmp::Ordering::Greater
            },
            (
                MatchKey::Playoff { num: n1, tiebreaker: t1 },
                MatchKey::Playoff { num: n2, tiebreaker: t2 },
            ) => {
                if n1 < n2 || (n1 == n2 && t1 < t2) {
                    core::cmp::Ordering::Less
                } else if n1 == n2 && t1 == t2 {
                    core::cmp::Ordering::Equal
                } else {
                    core::cmp::Ordering::Greater
                }
            },
        }
    }
}

impl PartialOrd for MatchKey {
    fn partial_cmp(&self, other: &MatchKey) -> (r: Option<core::cmp::Ordering>) {
        Some(self.compare(other))
    }
}

impl vstd::std_specs::cmp::PartialOrdSpecImpl for MatchKey {
    open spec fn obeys_partial_cmp_spec() -> bool {
        true
    }

    open spec fn partial_cmp_spec(&self, other: &MatchKey) -> Option<core::cmp::Ordering> {
        Some(key_cmp(*self, *other))
    }
}

impl core::str::FromStr for MatchKey {
    type Err = KeyParseError;

    fn from_str(s: &str) -> Result<MatchKey, KeyParseError> {
        MatchKey::parse(s)
    }
}

proof fn lemma_word_facts()
    ensures
        no_ws(qualification_word()),
        no_ws(playoff_word()),
        no_ws(match_word()),
        no_ws(tiebreaker_word()),
{
}

/// Reading the text form of a key gives the key back, for every key whose
/// tiebreaker count is not 0 (a count of 0 has no text form of its own).
pub proof fn lemma_key_round_trip(k: MatchKey)
    requires
        !(k is Playoff && k->tiebreaker == 0),
    ensures
        parse_key_spec(key_text(k)) == Ok::<MatchKey, KeyParseError>(k),
{
    lemma_word_facts();
    let sp = seq![' '];
    assert(crate::text::is_ws(' '));
    match k {
        MatchKey::Qualification { num } => {
            lemma_decimal_digits(num as nat);
            lemma_decimal_parses(num);
            let q = qualification_word();
            lemma_words_append_word(Seq::<char>::empty(), q);
            assert(Seq::<char>::empty() + q =~= q);
            assert(words(Seq::<char>::empty()) =~= Seq::<Seq<char>>::empty());
            lemma_words_append_ws(q, ' ');
            assert(q.push(' ') =~= q + sp);
            lemma_words_append_word(q + sp, decimal(num as nat));
            let t = words(key_text(k));
            assert(t =~= seq![q, decimal(num as nat)]);
        },
        MatchKey::Playoff { num, tiebreaker } => {
            let d = decimal(num as nat);
            lemma_decimal_digits(num as nat);
            lemma_decimal_parses(num);
            let p = playoff_word();
            let m = match_word();
            let tb = tiebreaker_word();
            lemma_words_append_word(Seq::<char>::empty(), p);
            assert(Seq::<char>::empty() + p =~= p);
            assert(words(Seq::<char>::empty()) =~= Seq::<Seq<char>>::empty());
            lemma_words_append_ws(p, ' ');
            assert(p.push(' ') =~= p + sp);
            lemma_words_append_word(p + sp, m);
            lemma_words_append_ws(p + sp + m, ' ');
            assert((p + sp + m).push(' ') =~= p + sp + m + sp);
            lemma_words_append_word(p + sp + m + sp, d);
            let base = p + sp + m + sp + d;
            assert(words(base) =~= seq![p, m, d]);
            assert(p != qualification_word()) by {
                assert(p.len() != qualification_word().len());
            }
            assert(d != m) by {
                assert(crate::text::is_digit(d[0]));
            }
            if tiebreaker == 1 {
            } else {
                lemma_words_append_ws(base, ' ');
                assert(base.push(' ') =~= base + sp);
                lemma_words_append_word(base + sp, tb);
                let b2 = base + sp + tb;
                assert(words(b2) =~= seq![p, m, d, tb]);
                assert(tb != m) by {
                    assert(tb.len() != m.len());
                }
                if tiebreaker == 2 {
                } else {
                    let e = decimal(tiebreaker_shown(tiebreaker) as nat);
                    lemma_decimal_digits(tiebreaker_shown(tiebreaker) as nat);
                    lemma_decimal_parses(tiebreaker_shown(tiebreaker));
                    lemma_words_append_ws(b2, ' ');
                    assert(b2.push(' ') =~= b2 + sp);
                    lemma_words_append_word(b2 + sp, e);
                    assert(words(key_text(k)) =~= seq![p, m, d, tb, e]);
                    assert(e != tb) by {
                        assert(crate::text::is_digit(e[0]));
                    }
                }
            }
        },
    }
}

/// `key_lt` is a strict total order.
pub proof fn lemma_key_order_total(a: MatchKey, b: MatchKey, c: MatchKey)
    ensures
        !key_lt(a, a),
        a != b ==> key_lt(a, b) || key_lt(b, a),
        key_lt(a, b) && key_lt(b, c) ==> key_lt(a, c),
{
}

/// Every qualification comes before every playoff.
pub proof fn lemma_qualification_before_playoff(q: MatchKey, p: MatchKey)
    requires
        q is Qualification,
        p is Playoff,
    ensures
        key_lt(q, p),
        !key_lt(p, q),
        key_cmp(q, p) == core::cmp::Ordering::Less,
{
}

/// Within one kind, keys are ordered lexicographically by
/// `(num, tiebreaker)`.
pub proof fn lemma_order_within_kind(a: MatchKey, b: MatchKey)
    ensures
        a is Qualification && b is Qualification ==> (key_lt(a, b) <==> a->Qualification_num
            < b->Qualification_num),
        a is Playoff && b is Playoff ==> (key_lt(a, b) <==> (a->Playoff_num < b->Playoff_num || (
        a->Playoff_num == b->Playoff_num && a->tiebreaker < b->tiebreaker))),
{
}

} // verus!

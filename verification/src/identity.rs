//! Stable monitor identity.
//!
//! Connector names (`DP-7`, `HDMI-1`, …) are unstable across boots, so
//! profiles match on EDID identity (vendor + product + serial) and use the
//! connector only as a disambiguation hint.
use vstd::prelude::*;
use crate::text::{chars_of, lower_char_exec, lower_seq, push_str, trim_chars, trim_seq};

verus! {

/// Identity of a physical monitor as reported by Mutter's monitor spec
/// (connector, vendor, product, serial).
#[derive(Debug, PartialEq, Eq, Hash)]
pub struct MonitorIdentity {
    pub connector: String,
    pub vendor: String,
    pub product: String,
    pub serial: String,
}

impl Clone for MonitorIdentity {
    fn clone(&self) -> (r: Self)
        ensures
            r == *self,
    {
        MonitorIdentity {
            connector: self.connector.clone(),
            vendor: self.vendor.clone(),
            product: self.product.clone(),
            serial: self.serial.clone(),
        }
    }
}

/// How strongly two identities match, weakest first.
#[derive(Debug, Clone, Copy, PartialEq, Eq, Structural, PartialOrd, Ord)]
pub enum MatchLevel {
    /// No usable correspondence.
    Unmatched,
    /// Same connector only (weakest usable signal).
    Connector,
    /// Same vendor + product, serial unknown or different.
    Model,
    /// Same vendor + product + serial (serial non-empty on both sides).
    FullEdid,
}

/// The EDID triple is not entirely empty.
pub open spec fn has_edid_spec(vendor: Seq<char>, product: Seq<char>, serial: Seq<char>) -> bool {
    !(vendor.len() == 0 && product.len() == 0 && serial.len() == 0)
}

/// First index at which two character sequences differ, or their common
/// length.
pub fn str_eq(a: &str, b: &str) -> (r: bool)
    ensures
        r == (a@ == b@),
{
    let x = chars_of(a);
    let y = chars_of(b);
    if x.len() != y.len() {
        return false;
    }
    let mut i: usize = 0;
    while i < x.len()
        invariant
            x@ == a@,
            y@ == b@,
            x@.len() == y@.len(),
            i <= x@.len(),
            forall|j: int| 0 <= j < i ==> x@[j] == y@[j],
        decreases x@.len() - i,
    {
        if x[i] != y[i] {
            return false;
        }
        i += 1;
    }
    assert(x@ =~= y@);
    true
}

/// Bytes a character takes in UTF-8.
pub open spec fn utf8_len(c: char) -> nat {
    if (c as u32) < 0x80 {
        1
    } else if (c as u32) < 0x800 {
        2
    } else if (c as u32) < 0x10000 {
        3
    } else {
        4
    }
}

/// Bytes `s` takes in UTF-8.
pub open spec fn byte_len(s: Seq<char>) -> nat
    decreases s.len(),
{
    if s.len() == 0 {
        0
    } else {
        utf8_len(s[0]) + byte_len(s.skip(1))
    }
}

/// The two-byte slices of `s`'s UTF-8 text, when every even byte offset is
/// a character boundary: a pair of one-byte characters, or one two-byte
/// character (written with `'\0'` second, which no pair of one-byte
/// characters starting with it can equal). `None` when some even offset
/// falls inside a character, or the text has an odd number of bytes.
pub open spec fn byte_pairs(s: Seq<char>) -> Option<Seq<(char, char)>>
    decreases s.len(),
{
    if s.len() == 0 {
        Some(Seq::empty())
    } else if utf8_len(s[0]) == 2 {
        match byte_pairs(s.skip(1)) {
            Some(u) => Some(seq![(s[0], '\0')] + u),
            None => None,
        }
    } else if utf8_len(s[0]) == 1 && s.len() >= 2 && utf8_len(s[1]) == 1 {
        match byte_pairs(s.skip(2)) {
            Some(u) => Some(seq![(s[0], s[1])] + u),
            None => None,
        }
    } else {
        None
    }
}

/// Three of the pairs are pairwise different, i.e. the pairs take more
/// than two distinct values.
pub open spec fn three_distinct(u: Seq<(char, char)>) -> bool {
    exists|a: int, b: int, c: int|
        #![trigger u[a], u[b], u[c]]
        0 <= a < u.len() && 0 <= b < u.len() && 0 <= c < u.len() && u[a] != u[b] && u[a] != u[c] && u[b] != u[c]
}

/// `s` without a leading `0x`.
pub open spec fn strip_hex_prefix(s: Seq<char>) -> Seq<char> {
    if s.len() >= 2 && s[0] == '0' && s[1] == 'x' {
        s.skip(2)
    } else {
        s
    }
}

/// Every character is `0`.
pub open spec fn all_zeros(s: Seq<char>) -> bool {
    forall|i: int| 0 <= i < s.len() ==> #[trigger] s[i] == '0'
}

/// Serials like `0x88888800`, `0x00000000` or `0x01010101` that EDID
/// emulators tend to use: empty, all zeros, or at least six bytes of
/// two-byte groups taking at most two values.
pub open spec fn synthetic_serial(serial: Seq<char>) -> bool {
    let s = lower_seq(trim_seq(serial));
    let hex = strip_hex_prefix(s);
    ||| s.len() == 0
    ||| all_zeros(hex)
    ||| byte_len(hex) >= 6 && byte_len(hex) % 2 == 0 && (byte_pairs(hex) matches Some(u) && !three_distinct(u))
}

/// The serial can be cut into two-byte groups where the heuristic needs
/// it: it is decided before, or every even byte offset of the hex digits
/// is a character boundary.
pub open spec fn serial_groupable(serial: Seq<char>) -> bool {
    let s = lower_seq(trim_seq(serial));
    let hex = strip_hex_prefix(s);
    ||| s.len() == 0
    ||| all_zeros(hex)
    ||| !(byte_len(hex) >= 6 && byte_len(hex) % 2 == 0)
    ||| byte_pairs(hex) is Some
}

impl MonitorIdentity {
    pub open spec fn has_edid_view(&self) -> bool {
        has_edid_spec(self.vendor@, self.product@, self.serial@)
    }

    /// Key used for alias storage and profile matching.
    pub open spec fn stable_key_view(&self) -> Seq<char> {
        if self.has_edid_view() {
            self.vendor@ + "/"@ + self.product@ + "/"@ + self.serial@
        } else {
            "connector:"@ + self.connector@
        }
    }

    /// Match strength against another identity.
    pub open spec fn match_level_view(&self, other: &MonitorIdentity) -> MatchLevel {
        let same_model = self.has_edid_view() && self.vendor@.len() > 0 && self.vendor@
            == other.vendor@ && self.product@ == other.product@;
        if same_model && self.serial@.len() > 0 && self.serial@ == other.serial@ {
            MatchLevel::FullEdid
        } else if same_model {
            MatchLevel::Model
        } else if self.connector@.len() > 0 && self.connector@ == other.connector@ {
            MatchLevel::Connector
        } else {
            MatchLevel::Unmatched
        }
    }

    pub fn new(connector: &str, vendor: &str, product: &str, serial: &str) -> (r: Self)
        ensures
            r.connector@ == connector@,
            r.vendor@ == vendor@,
            r.product@ == product@,
            r.serial@ == serial@,
    {
        MonitorIdentity {
            connector: connector.to_owned(),
            vendor: vendor.to_owned(),
            product: product.to_owned(),
            serial: serial.to_owned(),
        }
    }

    /// True when the EDID triple is meaningful (not entirely empty).
    pub fn has_edid(&self) -> (r: bool)
        ensures
            r == self.has_edid_view(),
    {
        !(self.vendor.as_str().is_empty() && self.product.as_str().is_empty()
            && self.serial.as_str().is_empty())
    }

    /// Key used for alias storage and profile matching. Excludes the
    /// connector, which is unstable; falls back to the connector only when
    /// the monitor exposes no EDID identity at all.
    pub fn stable_key(&self) -> (r: String)
        ensures
            r@ == self.stable_key_view(),
    {
        if self.has_edid() {
            let mut s = self.vendor.clone();
            push_str(&mut s, "/");
            push_str(&mut s, self.product.as_str());
            push_str(&mut s, "/");
            push_str(&mut s, self.serial.as_str());
            s
        } else {
            let mut s = String::new();
            push_str(&mut s, "connector:");
            push_str(&mut s, self.connector.as_str());
            assert(s@ =~= "connector:"@ + self.connector@);
            s
        }
    }

    /// Match strength against another identity.
    pub fn match_level(&self, other: &MonitorIdentity) -> (r: MatchLevel)
        ensures
            r == self.match_level_view(other),
    {
        let same_model = self.has_edid() && !self.vendor.as_str().is_empty() && self.vendor
            == other.vendor && self.product == other.product;
        if same_model && !self.serial.as_str().is_empty() && self.serial == other.serial {
            MatchLevel::FullEdid
        } else if same_model {
            MatchLevel::Model
        } else if !self.connector.as_str().is_empty() && self.connector == other.connector {
            MatchLevel::Connector
        } else {
            MatchLevel::Unmatched
        }
    }

    /// Serials like `0x88888800`, `0x00000000` or `0x01010101` that EDID
    /// emulators tend to use.
    pub fn serial_looks_synthetic(&self) -> (r: bool)
        requires
            serial_groupable(self.serial@),
        ensures
            r == synthetic_serial(self.serial@),
    {
        let (empty, hex) = serial_hex(self.serial.as_str());
        if empty {
            return true;
        }
        if all_zero_chars(&hex) {
            return true;
        }
        let bytes = utf8_bytes(&hex);
        if bytes >= 6 && bytes % 2 == 0 {
            let pairs = byte_pairs_exec(&hex);
            return two_kinds(&pairs);
        }
        false
    }

    /// Whether the serial heuristic can decide this serial: the serial is
    /// empty or all zeros, too short or odd in bytes for grouping, or its
    /// hex digits split into two-byte groups at character boundaries.
    pub fn serial_is_groupable(&self) -> (r: bool)
        ensures
            r == serial_groupable(self.serial@),
    {
        let (empty, hex) = serial_hex(self.serial.as_str());
        if empty || all_zero_chars(&hex) {
            return true;
        }
        let bytes = utf8_bytes(&hex);
        if !(bytes >= 6 && bytes % 2 == 0) {
            return true;
        }
        byte_pairs_exist(&hex)
    }
}

/// The trimmed, lower-cased serial, whether it is empty, and its hex
/// digits (without a leading `0x`).
fn serial_hex(serial: &str) -> (r: (bool, Vec<char>))
    ensures
        r.0 == (lower_seq(trim_seq(serial@)).len() == 0),
        r.1@ == strip_hex_prefix(lower_seq(trim_seq(serial@))),
{
    let raw = chars_of(serial);
    let trimmed = trim_chars(&raw);
    let mut s: Vec<char> = Vec::new();
    let mut i: usize = 0;
    while i < trimmed.len()
        invariant
            trimmed@ == trim_seq(serial@),
            i <= trimmed@.len(),
            s@ == lower_seq(trimmed@).subrange(0, i as int),
        decreases trimmed@.len() - i,
    {
        s.push(lower_char_exec(trimmed[i]));
        i += 1;
        assert(s@ =~= lower_seq(trimmed@).subrange(0, i as int));
    }
    assert(s@ =~= lower_seq(trimmed@));
    let start: usize = if s.len() >= 2 && s[0] == '0' && s[1] == 'x' {
        2
    } else {
        0
    };
    let mut hex: Vec<char> = Vec::new();
    let mut k: usize = start;
    while k < s.len()
        invariant
            start <= k <= s@.len(),
            hex@ == s@.subrange(start as int, k as int),
        decreases s@.len() - k,
    {
        hex.push(s[k]);
        k += 1;
        assert(hex@ =~= s@.subrange(start as int, k as int));
    }
    assert(hex@ =~= strip_hex_prefix(s@));
    (s.len() == 0, hex)
}

/// Whether every character is `0`.
fn all_zero_chars(hex: &Vec<char>) -> (r: bool)
    ensures
        r == all_zeros(hex@),
{
    let mut j: usize = 0;
    while j < hex.len()
        invariant
            j <= hex@.len(),
            forall|t: int| 0 <= t < j ==> hex@[t] == '0',
        decreases hex@.len() - j,
    {
        if hex[j] != '0' {
            return false;
        }
        j += 1;
    }
    true
}

/// Whether every even byte offset of `s`'s UTF-8 text is a character
/// boundary (and the byte count is even).
fn byte_pairs_exist(s: &Vec<char>) -> (r: bool)
    ensures
        r == byte_pairs(s@) is Some,
{
    let mut i: usize = 0;
    assert(s@.skip(0) =~= s@);
    while i < s.len()
        invariant
            i <= s@.len(),
            (byte_pairs(s@) is Some) == (byte_pairs(s@.skip(i as int)) is Some),
        decreases s@.len() - i,
    {
        let ghost rest = s@.skip(i as int);
        assert(rest[0] == s@[i as int]);
        let n = utf8_len_exec(s[i]);
        if n == 2 {
            assert(rest.skip(1) =~= s@.skip(i as int + 1));
            i += 1;
        } else if n == 1 && i + 1 < s.len() && utf8_len_exec(s[i + 1]) == 1 {
            assert(rest[1] == s@[i as int + 1]);
            assert(rest.skip(2) =~= s@.skip(i as int + 2));
            i += 2;
        } else {
            return false;
        }
    }
    assert(s@.skip(i as int).len() == 0);
    true
}

/// Bytes a character takes in UTF-8.
pub(crate) fn utf8_len_exec(c: char) -> (r: u128)
    ensures
        r == utf8_len(c),
{
    let v = c as u32;
    if v < 0x80 {
        1
    } else if v < 0x800 {
        2
    } else if v < 0x10000 {
        3
    } else {
        4
    }
}

/// Bytes `s` takes in UTF-8.
pub(crate) fn utf8_bytes(s: &Vec<char>) -> (r: u128)
    ensures
        r == byte_len(s@),
{
    let mut total: u128 = 0;
    let mut i: usize = 0;
    proof {
        lemma_byte_len_bound(s@);
        assert(s@.skip(0) =~= s@);
    }
    while i < s.len()
        invariant
            i <= s@.len(),
            total + byte_len(s@.skip(i as int)) == byte_len(s@),
            byte_len(s@) <= 4 * s@.len(),
            total <= 4 * i,
        decreases s@.len() - i,
    {
        proof {
            assert(s@.skip(i as int).skip(1) =~= s@.skip(i as int + 1));
            assert(s@.skip(i as int)[0] == s@[i as int]);
        }
        total = total + utf8_len_exec(s[i]);
        i += 1;
    }
    assert(s@.skip(i as int).len() == 0);
    total
}

proof fn lemma_byte_len_bound(s: Seq<char>)
    ensures
        byte_len(s) <= 4 * s.len(),
    decreases s.len(),
{
    if s.len() > 0 {
        lemma_byte_len_bound(s.skip(1));
    }
}

/// The two-byte groups of `s`, which must exist.
fn byte_pairs_exec(s: &Vec<char>) -> (r: Vec<(char, char)>)
    requires
        byte_pairs(s@) is Some,
    ensures
        byte_pairs(s@) == Some(r@),
{
    let mut out: Vec<(char, char)> = Vec::new();
    let mut i: usize = 0;
    assert(s@.skip(0) =~= s@);
    while i < s.len()
        invariant
            i <= s@.len(),
            byte_pairs(s@.skip(i as int)) is Some,
            byte_pairs(s@) == Some(out@ + byte_pairs(s@.skip(i as int))->0),
        decreases s@.len() - i,
    {
        let ghost rest = s@.skip(i as int);
        assert(rest[0] == s@[i as int]);
        let c = s[i];
        if utf8_len_exec(c) == 2 {
            assert(rest.skip(1) =~= s@.skip(i as int + 1));
            out.push((c, '\0'));
            proof {
                let u = byte_pairs(rest.skip(1))->0;
                assert(byte_pairs(rest)->0 == seq![(c, '\0')] + u);
            }
            i += 1;
        } else {
            assert(rest.len() >= 2 && rest[1] == s@[i as int + 1]);
            assert(rest.skip(2) =~= s@.skip(i as int + 2));
            let d = s[i + 1];
            out.push((c, d));
            i += 2;
        }
    }
    assert(s@.skip(i as int).len() == 0);
    assert(out@ + Seq::<(char, char)>::empty() =~= out@);
    out
}

fn same_pair(a: (char, char), b: (char, char)) -> (r: bool)
    ensures
        r == (a == b),
{
    a.0 == b.0 && a.1 == b.1
}

/// Whether the pairs take at most two values.
fn two_kinds(u: &Vec<(char, char)>) -> (r: bool)
    ensures
        r == !three_distinct(u@),
{
    if u.len() == 0 {
        return true;
    }
    let first = u[0];
    let mut j: usize = 1;
    while j < u.len() && same_pair(u[j], first)
        invariant
            1 <= j <= u@.len(),
            first == u@[0],
            forall|k: int| 0 <= k < j ==> #[trigger] u@[k] == first,
        decreases u@.len() - j,
    {
        j += 1;
    }
    if j == u.len() {
        return true;
    }
    let second = u[j];
    let mut k: usize = 0;
    while k < u.len()
        invariant
            0 < j < u@.len(),
            first == u@[0],
            second == u@[j as int],
            first != second,
            k <= u@.len(),
            forall|t: int| 0 <= t < k ==> #[trigger] u@[t] == first || u@[t] == second,
        decreases u@.len() - k,
    {
        let x = u[k];
        if !same_pair(x, first) && !same_pair(x, second) {
            assert(u@[0] != u@[j as int] && u@[0] != u@[k as int] && u@[j as int] != u@[k as int]);
            return false;
        }
        k += 1;
    }
    true
}

/// Identities with different EDID triples get different keys, as long as
/// none of the fields contains the `/` separator.
pub proof fn lemma_stable_key_distinguishes_models(a: MonitorIdentity, b: MonitorIdentity)
    requires
        a.has_edid_view(),
        b.has_edid_view(),
        !a.vendor@.contains('/'),
        !a.product@.contains('/'),
        !b.vendor@.contains('/'),
        !b.product@.contains('/'),
        a.stable_key_view() == b.stable_key_view(),
    ensures
        a.vendor@ == b.vendor@,
        a.product@ == b.product@,
        a.serial@ == b.serial@,
{
    reveal_strlit("/");
    let ka = a.stable_key_view();
    let la = a.vendor@.len();
    let lb = b.vendor@.len();
    proof_vendor_len(a, b);
    assert(a.vendor@ =~= ka.subrange(0, la as int));
    assert(b.vendor@ =~= ka.subrange(0, lb as int));
    let ra = a.product@ + "/"@ + a.serial@;
    let rb = b.product@ + "/"@ + b.serial@;
    assert(ka =~= a.vendor@ + "/"@ + ra) by {
        reveal_strlit("/");
    }
    assert(ka =~= b.vendor@ + "/"@ + rb) by {
        reveal_strlit("/");
    }
    assert(ra =~= ka.skip(la as int + 1));
    assert(rb =~= ka.skip(la as int + 1));
    proof_product_len(a.product@, b.product@, a.serial@, b.serial@);
}

proof fn proof_vendor_len(a: MonitorIdentity, b: MonitorIdentity)
    requires
        !a.vendor@.contains('/'),
        !b.vendor@.contains('/'),
        a.has_edid_view(),
        b.has_edid_view(),
        a.stable_key_view() == b.stable_key_view(),
    ensures
        a.vendor@.len() == b.vendor@.len(),
{
    reveal_strlit("/");
    let k = a.stable_key_view();
    let la = a.vendor@.len() as int;
    let lb = b.vendor@.len() as int;
    assert(k =~= a.vendor@ + "/"@ + (a.product@ + "/"@ + a.serial@));
    assert(k =~= b.vendor@ + "/"@ + (b.product@ + "/"@ + b.serial@));
    assert(k[la] == '/');
    assert(k[lb] == '/');
    if la < lb {
        assert(b.vendor@[la] == k[la]);
        assert(b.vendor@.contains('/'));
    } else if lb < la {
        assert(a.vendor@[lb] == k[lb]);
        assert(a.vendor@.contains('/'));
    }
}

proof fn proof_product_len(pa: Seq<char>, pb: Seq<char>, sa: Seq<char>, sb: Seq<char>)
    requires
        !pa.contains('/'),
        !pb.contains('/'),
        pa + "/"@ + sa == pb + "/"@ + sb,
    ensures
        pa == pb,
        sa == sb,
{
    reveal_strlit("/");
    let k = pa + "/"@ + sa;
    let la = pa.len() as int;
    let lb = pb.len() as int;
    assert(k[la] == '/');
    assert((pb + "/"@ + sb)[lb] == '/');
    if la < lb {
        assert(pb[la] == (pb + "/"@ + sb)[la]);
        assert(pb.contains('/'));
    } else if lb < la {
        assert(pa[lb] == k[lb]);
        assert(pa.contains('/'));
    }
    assert(pa =~= k.subrange(0, la));
    assert(pb =~= (pb + "/"@ + sb).subrange(0, lb));
    assert(sa =~= k.skip(la + 1));
    assert(sb =~= (pb + "/"@ + sb).skip(lb + 1));
}

} // verus!

//! Pieces of the diagnostics report: stable pseudonyms for sensitive
//! values, redaction of a state, the watch timestamp and the OS name from
//! an `os-release` file.
use vstd::prelude::*;
use vstd::utf8::encode_utf8;
use crate::identity::MonitorIdentity;
use crate::monitor::{MonitorView, PhysicalMonitor};
use crate::seqs::first_where;
use crate::state::DisplayState;
use crate::text::{chars_of, nat_digits, push_char, push_nat, push_str};

verus! {

/// FNV-1a offset basis (64-bit).
pub const FNV_OFFSET: u64 = 0xcbf2_9ce4_8422_2325;

/// FNV-1a prime (64-bit).
pub const FNV_PRIME: u64 = 0x0000_0100_0000_01b3;

/// 64-bit FNV-1a hash of a byte string.
pub open spec fn fnv1a(bytes: Seq<u8>) -> u64
    decreases bytes.len(),
{
    if bytes.len() == 0 {
        FNV_OFFSET
    } else {
        (fnv1a(bytes.drop_last()) ^ (bytes.last() as u64)).wrapping_mul(FNV_PRIME)
    }
}

/// Lower-case hexadecimal digit.
pub open spec fn hex_char(d: nat) -> char {
    if d < 10 {
        (d + 48) as char
    } else {
        (d + 87) as char
    }
}

/// The last `n` hexadecimal digits of `v`, most significant first.
pub open spec fn hex_digits(v: nat, n: nat) -> Seq<char>
    decreases n,
{
    if n == 0 {
        Seq::empty()
    } else {
        hex_digits(v / 16, (n - 1) as nat).push(hex_char(v % 16))
    }
}

/// `tag-xxxxxxxx`: the low 32 bits of the FNV-1a hash of the value's UTF-8
/// bytes in eight hexadecimal digits; empty for an empty value.
pub open spec fn pseudonym_text(tag: Seq<char>, value: Seq<char>) -> Seq<char> {
    if value.len() == 0 {
        Seq::empty()
    } else {
        tag + seq!['-'] + hex_digits((fnv1a(encode_utf8(value)) % 0x1_0000_0000) as nat, 8)
    }
}

fn hex_char_exec(d: u32) -> (r: char)
    requires
        d < 16,
    ensures
        r == hex_char(d as nat),
{
    match d {
        0 => '0',
        1 => '1',
        2 => '2',
        3 => '3',
        4 => '4',
        5 => '5',
        6 => '6',
        7 => '7',
        8 => '8',
        9 => '9',
        10 => 'a',
        11 => 'b',
        12 => 'c',
        13 => 'd',
        14 => 'e',
        _ => 'f',
    }
}

fn push_hex(s: &mut String, v: u32, n: u32)
    ensures
        final(s)@ == old(s)@ + hex_digits(v as nat, n as nat),
    decreases n,
{
    if n > 0 {
        push_hex(s, v / 16, n - 1);
        push_char(s, hex_char_exec(v % 16));
    } else {
        assert(old(s)@ + hex_digits(v as nat, 0) =~= old(s)@);
    }
}

/// Stable pseudonym for a sensitive value, so that reports can be
/// correlated without revealing it.
pub fn pseudonym(tag: &str, value: &str) -> (r: String)
    ensures
        r@ == pseudonym_text(tag@, value@),
{
    if value.is_empty() {
        return String::new();
    }
    let bytes = value.as_bytes();
    let mut hash: u64 = FNV_OFFSET;
    let mut i: usize = 0;
    while i < bytes.len()
        invariant
            bytes@ == encode_utf8(value@),
            i <= bytes@.len(),
            hash == fnv1a(bytes@.take(i as int)),
        decreases bytes@.len() - i,
    {
        assert(bytes@.take(i as int + 1).drop_last() =~= bytes@.take(i as int));
        hash = (hash ^ (bytes[i] as u64)).wrapping_mul(FNV_PRIME);
        i += 1;
    }
    assert(bytes@.take(bytes@.len() as int) =~= bytes@);
    let mut out = String::new();
    push_str(&mut out, tag);
    push_char(&mut out, '-');
    push_hex(&mut out, (hash % 0x1_0000_0000) as u32, 8);
    assert(out@ =~= tag@ + seq!['-'] + hex_digits((hash % 0x1_0000_0000) as nat, 8));
    out
}

/// Redacts a state for sharing: each monitor's serial becomes its
/// pseudonym and its unknown properties (which may embed identifying
/// strings) are dropped. Nothing else changes.
pub fn redact(state: &mut DisplayState)
    ensures
        final(state).serial == old(state).serial,
        final(state).layout@ == old(state).layout@,
        final(state).monitors@.len() == old(state).monitors@.len(),
        forall|i: int|
            0 <= i < old(state).monitors@.len() ==> {
                let m = #[trigger] final(state).monitors@[i]@;
                let o = old(state).monitors@[i]@;
                &&& m == (MonitorView { identity: m.identity, extra: Seq::empty(), ..o })
                &&& m.identity.connector == o.identity.connector
                &&& m.identity.vendor == o.identity.vendor
                &&& m.identity.product == o.identity.product
                &&& m.identity.serial@ == pseudonym_text("sn"@, o.identity.serial@)
            },
{
    let ghost before = state.monitors@;
    let mut i: usize = 0;
    while i < state.monitors.len()
        invariant
            state.serial == old(state).serial,
            state.layout@ == old(state).layout@,
            before == old(state).monitors@,
            state.monitors@.len() == before.len(),
            i <= before.len(),
            forall|j: int|
                i <= j < before.len() ==> #[trigger] state.monitors@[j] == before[j],
            forall|j: int|
                0 <= j < i ==> {
                    let m = #[trigger] state.monitors@[j]@;
                    let o = before[j]@;
                    &&& m == (MonitorView { identity: m.identity, extra: Seq::empty(), ..o })
                    &&& m.identity.connector == o.identity.connector
                    &&& m.identity.vendor == o.identity.vendor
                    &&& m.identity.product == o.identity.product
                    &&& m.identity.serial@ == pseudonym_text("sn"@, o.identity.serial@)
                },
        decreases before.len() - i,
    {
        let old_monitor = &state.monitors[i];
        let copy = old_monitor.clone();
        let identity = MonitorIdentity {
            connector: old_monitor.identity.connector.clone(),
            vendor: old_monitor.identity.vendor.clone(),
            product: old_monitor.identity.product.clone(),
            serial: pseudonym("sn", old_monitor.identity.serial.as_str()),
        };
        let no_extra: Vec<(String, String)> = Vec::new();
        assert(crate::mode::extra_view(no_extra@) =~= Seq::empty());
        let updated = PhysicalMonitor { identity, extra: no_extra, ..copy };
        assert(updated@ == (MonitorView { identity: updated@.identity, extra: Seq::empty(), ..before[i as int]@ }));
        state.monitors.set(i, updated);
        i += 1;
    }
}

/// Seconds on the watch clock shown in a timestamp: they wrap every
/// hundred thousand seconds.
pub open spec fn timestamp_text(unix_seconds: nat) -> Seq<char> {
    "t+"@ + nat_digits(unix_seconds % 100_000) + "s"@
}

/// `t+<seconds>s`, seconds since the Unix epoch modulo 100000.
pub fn format_timestamp(unix_seconds: u64) -> (r: String)
    ensures
        r@ == timestamp_text(unix_seconds as nat),
{
    let mut out = String::new();
    push_str(&mut out, "t+");
    push_nat(&mut out, unix_seconds % 100_000);
    push_str(&mut out, "s");
    assert(out@ =~= timestamp_text(unix_seconds as nat));
    out
}

#[verifier::external_type_specification]
#[verifier::external_body]
pub struct ExSystemTime(std::time::SystemTime);

/// `SystemTime::now`: the current system time.
#[verifier::external_body]
fn system_now() -> (r: std::time::SystemTime) {
    std::time::SystemTime::now()
}

/// `SystemTime::duration_since` the Unix epoch, zero for a time before it.
#[verifier::external_body]
fn since_epoch(t: &std::time::SystemTime) -> (r: core::time::Duration) {
    t.duration_since(std::time::UNIX_EPOCH).unwrap_or_default()
}

/// `Duration::as_secs`: whole seconds of a duration.
#[verifier::external_body]
fn whole_seconds(d: &core::time::Duration) -> (r: u64) {
    d.as_secs()
}

/// Timestamp of the current time, as shown when monitors change.
pub fn timestamp() -> (r: String)
    ensures
        exists|s: nat| r@ == timestamp_text(s),
{
    let now = system_now();
    let since = since_epoch(&now);
    format_timestamp(whole_seconds(&since))
}

/// What `os-release` calls the system: the value of its first
/// `PRETTY_NAME=` line.
pub open spec fn pretty_prefix() -> Seq<char> {
    "PRETTY_NAME="@
}

pub open spec fn is_newline() -> spec_fn(char) -> bool {
    |c: char| c == '\n'
}

pub open spec fn starts_with(s: Seq<char>, p: Seq<char>) -> bool {
    s.len() >= p.len() && s.take(p.len() as int) == p
}

/// A line's text without one `\r` before its `\n`.
pub open spec fn strip_cr(line: Seq<char>) -> Seq<char> {
    if line.len() > 0 && line.last() == '\r' {
        line.drop_last()
    } else {
        line
    }
}

/// The rest of the first line of `s` that starts with `PRETTY_NAME=`.
/// Lines end at `\n`; a `\r` before it belongs to the line ending.
pub open spec fn pretty_value(s: Seq<char>) -> Option<Seq<char>>
    decreases s.len(),
{
    match first_where(s, is_newline()) {
        Some(k) => {
            let line = strip_cr(s.take(k));
            if starts_with(line, pretty_prefix()) {
                Some(line.skip(pretty_prefix().len() as int))
            } else {
                pretty_value(s.skip(k + 1))
            }
        },
        None => if starts_with(s, pretty_prefix()) {
            Some(s.skip(pretty_prefix().len() as int))
        } else {
            None
        },
    }
}

pub open spec fn trim_start_quotes(s: Seq<char>) -> Seq<char>
    decreases s.len(),
{
    if s.len() > 0 && s[0] == '"' {
        trim_start_quotes(s.drop_first())
    } else {
        s
    }
}

pub open spec fn trim_end_quotes(s: Seq<char>) -> Seq<char>
    decreases s.len(),
{
    if s.len() > 0 && s.last() == '"' {
        trim_end_quotes(s.drop_last())
    } else {
        s
    }
}

/// The system's name from an `os-release` file: the `PRETTY_NAME` value
/// without surrounding quotes, or `unknown`.
pub open spec fn os_name(os_release: Seq<char>) -> Seq<char> {
    match pretty_value(os_release) {
        Some(v) => trim_end_quotes(trim_start_quotes(v)),
        None => "unknown"@,
    }
}

/// `v` without leading and trailing double quotes.
fn trim_quotes(v: &Vec<char>) -> (r: Vec<char>)
    ensures
        r@ == trim_end_quotes(trim_start_quotes(v@)),
{
    let mut i: usize = 0;
    assert(v@.skip(0) =~= v@);
    while i < v.len() && v[i] == '"'
        invariant
            i <= v@.len(),
            trim_start_quotes(v@) == trim_start_quotes(v@.skip(i as int)),
        decreases v@.len() - i,
    {
        assert(v@.skip(i as int).drop_first() =~= v@.skip(i as int + 1));
        i += 1;
    }
    let ghost w = v@.skip(i as int);
    assert(trim_start_quotes(v@) == w);
    let mut j: usize = v.len();
    assert(v@.subrange(i as int, j as int) =~= w);
    while j > i && v[j - 1] == '"'
        invariant
            i <= j <= v@.len(),
            w == v@.skip(i as int),
            trim_end_quotes(w) == trim_end_quotes(v@.subrange(i as int, j as int)),
        decreases j,
    {
        assert(v@.subrange(i as int, j as int).drop_last() =~= v@.subrange(i as int, j - 1));
        j -= 1;
    }
    let mut out: Vec<char> = Vec::new();
    let mut k: usize = i;
    while k < j
        invariant
            i <= k <= j <= v@.len(),
            out@ == v@.subrange(i as int, k as int),
        decreases j - k,
    {
        out.push(v[k]);
        k += 1;
        assert(out@ =~= v@.subrange(i as int, k as int));
    }
    out
}

fn string_of(v: &Vec<char>) -> (r: String)
    ensures
        r@ == v@,
{
    let mut out = String::new();
    let mut k: usize = 0;
    while k < v.len()
        invariant
            k <= v@.len(),
            out@ == v@.take(k as int),
        decreases v@.len() - k,
    {
        push_char(&mut out, v[k]);
        k += 1;
        assert(out@ =~= v@.take(k as int));
    }
    assert(v@.take(v@.len() as int) =~= v@);
    out
}

/// Whether `cs[start..end]` starts with `pre`.
fn has_prefix_at(cs: &Vec<char>, start: usize, end: usize, pre: &Vec<char>) -> (r: bool)
    requires
        start <= end <= cs@.len(),
    ensures
        r == starts_with(cs@.subrange(start as int, end as int), pre@),
{
    let ghost line = cs@.subrange(start as int, end as int);
    if end - start < pre.len() {
        return false;
    }
    let mut t: usize = 0;
    while t < pre.len()
        invariant
            line == cs@.subrange(start as int, end as int),
            start <= end <= cs@.len(),
            end - start >= pre@.len(),
            t <= pre@.len(),
            forall|q: int| 0 <= q < t ==> #[trigger] line[q] == pre@[q],
        decreases pre@.len() - t,
    {
        if cs[start + t] != pre[t] {
            assert(line.take(pre@.len() as int)[t as int] != pre@[t as int]);
            return false;
        }
        t += 1;
    }
    assert(line.take(pre@.len() as int) =~= pre@);
    true
}

/// The system's name from the text of an `os-release` file.
pub fn pretty_name(os_release: &str) -> (r: String)
    ensures
        r@ == os_name(os_release@),
{
    let cs = chars_of(os_release);
    let pre = chars_of("PRETTY_NAME=");
    let mut start: usize = 0;
    assert(cs@.skip(0) =~= cs@);
    loop
        invariant
            cs@ == os_release@,
            pre@ == pretty_prefix(),
            start <= cs@.len(),
            pretty_value(cs@) == pretty_value(cs@.skip(start as int)),
        decreases cs@.len() - start,
    {
        let ghost rest = cs@.skip(start as int);
        let mut k: usize = start;
        while k < cs.len() && cs[k] != '\n'
            invariant
                start <= k <= cs@.len(),
                forall|q: int| start <= q < k ==> cs@[q] != '\n',
            decreases cs@.len() - k,
        {
            k += 1;
        }
        let mut end = k;
        if k < cs.len() {
            proof {
                assert(crate::seqs::is_first(rest, is_newline(), k - start));
                crate::seqs::lemma_first_where_at(rest, is_newline(), k - start);
                assert(rest.take(k - start) =~= cs@.subrange(start as int, k as int));
            }
            if end > start && cs[end - 1] == '\r' {
                end = end - 1;
            }
            assert(strip_cr(rest.take(k - start)) =~= cs@.subrange(start as int, end as int));
        } else {
            proof {
                assert forall|q: int| 0 <= q < rest.len() implies !is_newline()(#[trigger] rest[q]) by {
                    assert(rest[q] == cs@[start + q]);
                }
                crate::seqs::lemma_first_where_none(rest, is_newline());
                assert(rest =~= cs@.subrange(start as int, k as int));
            }
        }
        let ghost line = cs@.subrange(start as int, end as int);
        if has_prefix_at(&cs, start, end, &pre) {
            let mut value: Vec<char> = Vec::new();
            let mut t: usize = start + pre.len();
            while t < end
                invariant
                    start + pre@.len() <= t <= end <= cs@.len(),
                    value@ == cs@.subrange(start + pre@.len(), t as int),
                decreases end - t,
            {
                value.push(cs[t]);
                t += 1;
                assert(value@ =~= cs@.subrange(start + pre@.len(), t as int));
            }
            assert(value@ =~= line.skip(pre@.len() as int));
            let trimmed = trim_quotes(&value);
            return string_of(&trimmed);
        }
        if k == cs.len() {
            return "unknown".to_owned();
        }
        assert(rest.skip(k - start + 1) =~= cs@.skip(k + 1));
        start = k + 1;
    }
}

} // verus!

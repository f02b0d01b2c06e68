//! Names for session log files: the script's name, a short digest of the
//! script, and the local time the session started, passed in by the caller.
use vstd::prelude::*;
use sha2::{Digest, Sha256};

verus! {

/// The day of the week, counted from Monday.
#[derive(Debug, Clone, Copy, PartialEq, Eq, Structural)]
pub enum Weekday {
    Mon,
    Tue,
    Wed,
    Thu,
    Fri,
    Sat,
    Sun,
}

/// A local date and time as plain fields.
pub struct Timestamp {
    pub year: i32,
    pub month: u32,
    pub day: u32,
    pub weekday: Weekday,
    pub hour: u32,
    pub minute: u32,
    pub second: u32,
}

/// The lowercase hex SHA-256 digest of the UTF-8 bytes of a text.
pub uninterp spec fn sha256_hex(text: Seq<char>) -> Seq<char>;

/// Relies on sha2's `Sha256` (`Digest::new`, `update`, `finalize`) and
/// generic-array's `LowerHex`, which writes two lowercase hex digits per
/// byte of the 32-byte digest.
#[verifier::external_body]
fn sha256_hex_of(text: &str) -> (r: String)
    ensures
        r@ == sha256_hex(text@),
        r@.len() == 64,
{
    let mut hasher = Sha256::new();
    hasher.update(text);
    format!("{:x}", hasher.finalize())
}

pub open spec fn digit(d: int) -> char {
    seq!['0', '1', '2', '3', '4', '5', '6', '7', '8', '9'][d]
}

/// The decimal digits of `n`, without leading zeros.
pub open spec fn decimal(n: nat) -> Seq<char>
    decreases n,
{
    if n < 10 {
        seq![digit(n as int)]
    } else {
        decimal(n / 10) + seq![digit((n % 10) as int)]
    }
}

/// `n` in decimal, padded with zeros on the left to at least `w` characters.
pub open spec fn padded(n: nat, w: nat) -> Seq<char> {
    let d = decimal(n);
    if d.len() < w {
        Seq::new((w - d.len()) as nat, |i: int| '0') + d
    } else {
        d
    }
}

/// A year in at least four characters; a negative one has its sign first.
pub open spec fn year_text(y: int) -> Seq<char> {
    if y >= 0 {
        padded(y as nat, 4)
    } else {
        seq!['-'] + padded((-y) as nat, 3)
    }
}

pub open spec fn weekday_name(w: Weekday) -> Seq<char> {
    match w {
        Weekday::Mon => "Mon"@,
        Weekday::Tue => "Tue"@,
        Weekday::Wed => "Wed"@,
        Weekday::Thu => "Thu"@,
        Weekday::Fri => "Fri"@,
        Weekday::Sat => "Sat"@,
        Weekday::Sun => "Sun"@,
    }
}

/// `YYYY-MM-DD`, the weekday's short name, then `HHMMSS`.
pub open spec fn timestamp_text(t: Timestamp) -> Seq<char> {
    year_text(t.year as int) + seq!['-'] + padded(t.month as nat, 2) + seq!['-'] + padded(t.day as nat, 2)
        + weekday_name(t.weekday) + padded(t.hour as nat, 2) + padded(t.minute as nat, 2) + padded(
        t.second as nat,
        2,
    )
}

/// The first six characters of a digest, or all of it when shorter.
pub open spec fn short_digest(d: Seq<char>) -> Seq<char> {
    if d.len() <= 6 {
        d
    } else {
        d.take(6)
    }
}

/// `name-digest-timestamp.log`, with the digest cut to six characters.
pub open spec fn log_name(name: Seq<char>, digest: Seq<char>, t: Timestamp) -> Seq<char> {
    name + seq!['-'] + short_digest(digest) + seq!['-'] + timestamp_text(t) + ".log"@
}

fn digit_exec(d: u32) -> (r: char)
    requires
        d < 10,
    ensures
        r == digit(d as int),
{
    let table: [char; 10] = ['0', '1', '2', '3', '4', '5', '6', '7', '8', '9'];
    assert(table@ =~= seq!['0', '1', '2', '3', '4', '5', '6', '7', '8', '9']);
    table[d as usize]
}

fn decimal_exec(n: u32) -> (r: Vec<char>)
    ensures
        r@ == decimal(n as nat),
    decreases n,
{
    if n < 10 {
        let r = vec![digit_exec(n)];
        assert(r@ =~= seq![digit(n as int)]);
        r
    } else {
        let mut r = decimal_exec(n / 10);
        r.push(digit_exec(n % 10));
        r
    }
}

fn padded_exec(n: u32, w: usize) -> (r: Vec<char>)
    ensures
        r@ == padded(n as nat, w as nat),
{
    let d = decimal_exec(n);
    if d.len() < w {
        let mut r: Vec<char> = Vec::new();
        let mut k: usize = 0;
        while k < w - d.len()
            invariant
                d.len() < w,
                k <= w - d@.len(),
                r@ =~= Seq::new(k as nat, |i: int| '0'),
            decreases w - d.len() - k,
        {
            r.push('0');
            k = k + 1;
        }
        let mut j: usize = 0;
        let ghost zeros = r@;
        while j < d.len()
            invariant
                j <= d@.len(),
                r@ =~= zeros + d@.take(j as int),
            decreases d.len() - j,
        {
            r.push(d[j]);
            j = j + 1;
            assert(d@.take(j as int) =~= d@.take(j - 1).push(d@[j - 1]));
        }
        assert(d@.take(j as int) =~= d@);
        r
    } else {
        d
    }
}

fn push_all(out: &mut Vec<char>, s: &Vec<char>)
    ensures
        final(out)@ == old(out)@ + s@,
{
    let mut k: usize = 0;
    let ghost start = out@;
    while k < s.len()
        invariant
            k <= s@.len(),
            out@ =~= start + s@.take(k as int),
        decreases s.len() - k,
    {
        out.push(s[k]);
        k = k + 1;
        assert(s@.take(k as int) =~= s@.take(k - 1).push(s@[k - 1]));
    }
    assert(s@.take(k as int) =~= s@);
}

fn weekday_chars(w: Weekday) -> (r: Vec<char>)
    ensures
        r@ == weekday_name(w),
{
    let s = match w {
        Weekday::Mon => "Mon",
        Weekday::Tue => "Tue",
        Weekday::Wed => "Wed",
        Weekday::Thu => "Thu",
        Weekday::Fri => "Fri",
        Weekday::Sat => "Sat",
        Weekday::Sun => "Sun",
    };
    crate::text::chars_of(s)
}

fn timestamp_chars(t: &Timestamp) -> (r: Vec<char>)
    ensures
        r@ == timestamp_text(*t),
{
    let mut out: Vec<char> = Vec::new();
    if t.year >= 0 {
        push_all(&mut out, &padded_exec(t.year as u32, 4));
    } else {
        out.push('-');
        let y: u32 = if t.year == i32::MIN {
            2147483648u32
        } else {
            (-t.year) as u32
        };
        push_all(&mut out, &padded_exec(y, 3));
    }
    out.push('-');
    push_all(&mut out, &padded_exec(t.month, 2));
    out.push('-');
    push_all(&mut out, &padded_exec(t.day, 2));
    push_all(&mut out, &weekday_chars(t.weekday));
    push_all(&mut out, &padded_exec(t.hour, 2));
    push_all(&mut out, &padded_exec(t.minute, 2));
    push_all(&mut out, &padded_exec(t.second, 2));
    assert(out@ =~= timestamp_text(*t));
    out
}

/// The timestamp part of a log file name.
pub fn filename_timestamp(t: &Timestamp) -> (r: String)
    ensures
        r@ == timestamp_text(*t),
{
    crate::text::string_of(timestamp_chars(t).as_slice())
}

/// A log file name from the script's name, a hex digest of the script
/// and the start time.
pub fn log_file_name(flowchart_name: &str, digest_hex: &str, t: &Timestamp) -> (r: String)
    ensures
        r@ == log_name(flowchart_name@, digest_hex@, *t),
{
    let mut out = crate::text::chars_of(flowchart_name);
    out.push('-');
    let d = crate::text::chars_of(digest_hex);
    if d.len() <= 6 {
        push_all(&mut out, &d);
    } else {
        push_all(&mut out, &crate::text::copy_range(&d, 0, 6));
    }
    out.push('-');
    push_all(&mut out, &timestamp_chars(t));
    push_all(&mut out, &crate::text::chars_of(".log"));
    assert(out@ =~= log_name(flowchart_name@, digest_hex@, *t));
    crate::text::string_of(out.as_slice())
}

/// The log file name for a session over the script `flowchart`, named
/// `flowchart_name`, started at `t`.
pub fn generate_logfile_name(flowchart_name: &str, flowchart: &str, t: &Timestamp) -> (r: String)
    ensures
        r@ == log_name(flowchart_name@, sha256_hex(flowchart@), *t),
{
    let digest = sha256_hex_of(flowchart);
    log_file_name(flowchart_name, digest.as_str(), t)
}

} // verus!

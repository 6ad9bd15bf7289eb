//! Where panics go: one file for each, named by the time so that names sort as
//! time does, and only the latest of them kept.

use vstd::prelude::*;
use vstd::utf8::encode_utf8;

use crate::sorting::{
    bytes_before, lemma_bytes_before, lemma_picked, picked, reordered, sort_texts, text_at_most,
};
use crate::strings::{chars_of, decimal, decimal_digit, push_decimal};

verus! {

/// The directory of crashes inside that of the settings.
pub const CRASH_DIR: &'static str = "crashes";

/// How the name of a crash begins. By it the files are known when they are
/// cleaned up, so that nothing else in the directory is touched.
pub const FILE_PREFIX: &'static str = "panic-";

pub const FILE_SUFFIX: &'static str = ".log";

/// How many of the latest crashes are kept.
pub const KEEP_FILES: usize = 20;

/// The time in the name of a file. It has no colons: Windows allows none.
pub const FILE_PATTERN: &'static str = "%Y-%m-%d_%H-%M-%S%.3f";

/// The time in the header of a record.
pub const HEADER_PATTERN: &'static str = "%Y-%m-%d %H:%M:%S%.3f %:z";

/// A moment by the clock on the wall, and how far east of UTC the wall stands.
#[derive(Debug, Clone, Copy)]
pub struct LocalTime {
    pub year: i32,
    pub month: u32,
    pub day: u32,
    pub hour: u32,
    pub minute: u32,
    pub second: u32,
    pub milli: u32,
    pub offset_seconds: i32,
}

pub open spec fn is_leap(year: int) -> bool {
    year % 4 == 0 && (year % 100 != 0 || year % 400 == 0)
}

pub open spec fn days_in(year: int, month: int) -> int {
    if month == 2 {
        if is_leap(year) {
            29
        } else {
            28
        }
    } else if month == 4 || month == 6 || month == 9 || month == 11 {
        30
    } else {
        31
    }
}

impl LocalTime {
    /// The calendar and the clock know this moment, in a year of four digits.
    pub open spec fn valid(self) -> bool {
        &&& 0 <= self.year <= 9999
        &&& 1 <= self.month <= 12
        &&& 1 <= self.day <= days_in(self.year as int, self.month as int)
        &&& self.hour < 24
        &&& self.minute < 60
        &&& self.second < 60
        &&& self.milli < 1000
        &&& -86_400 < self.offset_seconds < 86_400
    }

    /// Whether the calendar and the clock know this moment.
    pub fn is_valid(&self) -> (r: bool)
        ensures
            r == self.valid(),
    {
        if self.year < 0 || self.year > 9999 || self.month < 1 || self.month > 12 {
            return false;
        }
        let leap = self.year % 4 == 0 && (self.year % 100 != 0 || self.year % 400 == 0);
        let days: u32 = if self.month == 2 {
            if leap {
                29
            } else {
                28
            }
        } else if self.month == 4 || self.month == 6 || self.month == 9 || self.month == 11 {
            30
        } else {
            31
        };
        1 <= self.day && self.day <= days && self.hour < 24 && self.minute < 60 && self.second < 60
            && self.milli < 1000 && -86_400 < self.offset_seconds && self.offset_seconds < 86_400
    }
}

/// A number in decimal, with zeros in front up to a width.
pub open spec fn digits(n: nat, width: nat) -> Seq<char>
    decreases width,
{
    if width == 0 {
        Seq::empty()
    } else {
        digits(n / 10, (width - 1) as nat).push(decimal_digit(n % 10))
    }
}

pub open spec fn date_text(t: LocalTime) -> Seq<char> {
    digits(t.year as nat, 4) + seq!['-'] + digits(t.month as nat, 2) + seq!['-'] + digits(
        t.day as nat,
        2,
    )
}

pub open spec fn clock_text(t: LocalTime, separator: char) -> Seq<char> {
    digits(t.hour as nat, 2) + seq![separator] + digits(t.minute as nat, 2) + seq![separator]
        + digits(t.second as nat, 2) + seq!['.'] + digits(t.milli as nat, 3)
}

/// How far east of UTC, in hours and minutes, to the nearest minute.
pub open spec fn zone_text(offset: int) -> Seq<char> {
    let minutes = ((if offset < 0 {
        -offset
    } else {
        offset
    }) + 30) / 60;
    seq![
        if offset < 0 {
            '-'
        } else {
            '+'
        },
    ] + digits((minutes / 60) as nat, 2) + seq![':'] + digits((minutes % 60) as nat, 2)
}

pub open spec fn file_stamp(t: LocalTime) -> Seq<char> {
    date_text(t) + seq!['_'] + clock_text(t, '-')
}

pub open spec fn header_stamp(t: LocalTime) -> Seq<char> {
    date_text(t) + seq![' '] + clock_text(t, ':') + seq![' '] + zone_text(t.offset_seconds as int)
}

/// `chrono::DateTime::format` writes a moment by a pattern. Of the two patterns
/// used here it is said what they write: `%Y` is the year in four digits, `%m`,
/// `%d`, `%H`, `%M` and `%S` are two digits each, `%.3f` is a point and the
/// milliseconds in three digits, and `%:z` is the distance from UTC with a sign
/// and a colon, rounded to minutes.
#[verifier::external_body]
fn formatted(t: &LocalTime, pattern: &str) -> (r: String)
    requires
        t.valid(),
        pattern@ == FILE_PATTERN@ || pattern@ == HEADER_PATTERN@,
    ensures
        pattern@ == FILE_PATTERN@ ==> r@ == file_stamp(*t),
        pattern@ == HEADER_PATTERN@ ==> r@ == header_stamp(*t),
{
    let date = chrono::NaiveDate::from_ymd_opt(t.year, t.month, t.day);
    let time = date.and_then(|d| d.and_hms_milli_opt(t.hour, t.minute, t.second, t.milli));
    let zone = chrono::FixedOffset::east_opt(t.offset_seconds);
    let moment = time.zip(zone).and_then(|(n, z)| n.and_local_timezone(z).single());
    moment.map_or(String::new(), |m| m.format(pattern).to_string())
}

pub open spec fn crash_name(t: LocalTime) -> Seq<char> {
    FILE_PREFIX@ + file_stamp(t) + FILE_SUFFIX@
}

/// The name of the file for a crash at this moment.
pub fn file_name(now: &LocalTime) -> (r: String)
    requires
        now.valid(),
    ensures
        r@ == crash_name(*now),
{
    let mut out = FILE_PREFIX.to_owned();
    let stamp = formatted(now, FILE_PATTERN);
    out.push_str(stamp.as_str());
    out.push_str(FILE_SUFFIX);
    out
}

/// What is known of a panic.
#[derive(Debug)]
pub struct Crash<'a> {
    pub when: LocalTime,
    pub version: &'a str,
    pub os: &'a str,
    pub thread: Option<&'a str>,
    /// The file, the line and the column.
    pub location: Option<(&'a str, u32, u32)>,
    pub message: Option<&'a str>,
    pub trace: &'a str,
}

pub open spec fn or_else(text: Option<&str>, other: Seq<char>) -> Seq<char> {
    match text {
        Some(t) => t@,
        None => other,
    }
}

pub open spec fn location_text(location: Option<(&str, u32, u32)>) -> Seq<char> {
    match location {
        Some((file, line, column)) => "panicked at "@ + file@ + ":"@ + decimal(line as nat) + ":"@
            + decimal(column as nat) + "\n"@,
        None => "panicked at an unknown location\n"@,
    }
}

/// The text of a record.
pub open spec fn record_text(crash: Crash) -> Seq<char> {
    "=== "@ + header_stamp(crash.when) + " | mikui "@ + crash.version@ + " | "@ + crash.os@
        + " | thread "@ + or_else(crash.thread, "<unnamed>"@) + " ===\n"@ + location_text(
        crash.location,
    ) + or_else(crash.message, "<unknown reason>"@) + "\n\n"@ + crash.trace@ + "\n"@
}

/// One record. The time stands in the name of the file too: a file is renamed,
/// or sent without its name, and the time is to be known all the same.
pub fn record(crash: &Crash) -> (r: String)
    requires
        crash.when.valid(),
    ensures
        r@ == record_text(*crash),
{
    let when = formatted(&crash.when, HEADER_PATTERN);
    let thread: &str = match crash.thread {
        Some(t) => t,
        None => "<unnamed>",
    };
    let message: &str = match crash.message {
        Some(m) => m,
        None => "<unknown reason>",
    };
    let mut place = String::new();
    match crash.location {
        Some((file, line, column)) => {
            place.push_str("panicked at ");
            place.push_str(file);
            place.push_str(":");
            push_decimal(&mut place, line as u64);
            place.push_str(":");
            push_decimal(&mut place, column as u64);
            place.push_str("\n");
            proof {
                assert(place@ =~= location_text(crash.location));
            }
        },
        None => {
            place.push_str("panicked at an unknown location\n");
            proof {
                assert(place@ =~= location_text(crash.location));
            }
        },
    }
    let mut out = String::new();
    out.push_str("=== ");
    out.push_str(when.as_str());
    out.push_str(" | mikui ");
    out.push_str(crash.version);
    out.push_str(" | ");
    out.push_str(crash.os);
    out.push_str(" | thread ");
    out.push_str(thread);
    out.push_str(" ===\n");
    out.push_str(place.as_str());
    out.push_str(message);
    out.push_str("\n\n");
    out.push_str(crash.trace);
    out.push_str("\n");
    proof {
        assert(out@ =~= record_text(*crash));
    }
    out
}

/// The name of a file of a crash.
pub open spec fn is_crash(name: Seq<char>) -> bool {
    FILE_PREFIX@.is_prefix_of(name) && FILE_SUFFIX@.is_suffix_of(name)
}

/// Tells the files of crashes from others in the same directory.
pub fn is_crash_file(name: &str) -> (r: bool)
    ensures
        r == is_crash(name@),
{
    let chars = chars_of(name);
    let prefix = chars_of(FILE_PREFIX);
    let suffix = chars_of(FILE_SUFFIX);
    if chars.len() < prefix.len() || chars.len() < suffix.len() {
        return false;
    }
    let mut i: usize = 0;
    while i < prefix.len()
        invariant
            i <= prefix@.len() <= chars@.len(),
            prefix@ == FILE_PREFIX@,
            chars@ == name@,
            forall|k: int| 0 <= k < i ==> chars@[k] == prefix@[k],
        decreases prefix@.len() - i,
    {
        if chars[i] != prefix[i] {
            proof {
                assert(chars@.take(prefix@.len() as int)[i as int] == chars@[i as int]);
            }
            return false;
        }
        i += 1;
    }
    proof {
        assert(prefix@ =~= chars@.subrange(0, prefix@.len() as int));
    }
    let start: usize = chars.len() - suffix.len();
    i = 0;
    while i < suffix.len()
        invariant
            i <= suffix@.len() <= chars@.len(),
            start + suffix@.len() == chars@.len(),
            chars@.len() <= usize::MAX,
            suffix@ == FILE_SUFFIX@,
            chars@ == name@,
            forall|k: int| 0 <= k < i ==> chars@[start + k] == suffix@[k],
        decreases suffix@.len() - i,
    {
        if chars[start + i] != suffix[i] {
            proof {
                assert(chars@.subrange(start as int, chars@.len() as int)[i as int]
                    == chars@[start + i]);
            }
            return false;
        }
        i += 1;
    }
    proof {
        assert(suffix@ =~= chars@.subrange(start as int, chars@.len() as int));
    }
    true
}

/// Those of the names that are of crashes.
pub open spec fn crashes_among(names: Seq<String>) -> Seq<String> {
    names.filter(|n: String| is_crash(n@))
}

/// Each name may stand before those that follow it.
pub open spec fn sorted_names(names: Seq<String>) -> bool {
    forall|i: int, j: int|
        0 <= i < j < names.len() ==> !bytes_before(
            encode_utf8((#[trigger] names[j])@),
            encode_utf8((#[trigger] names[i])@),
        )
}

/// The files of crashes in a directory, from old to new.
pub fn crash_files(names: &Vec<String>) -> (r: Vec<String>)
    ensures
        r@.to_multiset() == crashes_among(names@).to_multiset(),
        sorted_names(r@),
{
    let mut found: Vec<String> = Vec::new();
    let mut i: usize = 0;
    proof {
        reveal(Seq::filter);
    }
    while i < names.len()
        invariant
            i <= names@.len(),
            found@ == crashes_among(names@.take(i as int)),
        decreases names@.len() - i,
    {
        proof {
            reveal(Seq::filter);
            assert(names@.take(i + 1).drop_last() =~= names@.take(i as int));
            assert(names@.take(i + 1).last() == names@[i as int]);
        }
        if is_crash_file(names[i].as_str()) {
            found.push(names[i].clone());
        }
        i += 1;
    }
    proof {
        assert(names@.take(i as int) =~= names@);
    }
    let places = sort_texts(&found);
    let mut out: Vec<String> = Vec::new();
    i = 0;
    while i < places.len()
        invariant
            i <= places@.len(),
            reordered(places@, found@.len()),
            out@ == picked(found@, places@).take(i as int),
        decreases places@.len() - i,
    {
        out.push(found[places[i]].clone());
        proof {
            assert(picked(found@, places@).take(i + 1) =~= picked(found@, places@).take(
                i as int,
            ).push(picked(found@, places@)[i as int]));
        }
        i += 1;
    }
    proof {
        assert(picked(found@, places@).take(i as int) =~= picked(found@, places@));
        lemma_picked(found@, places@);
        assert forall|i: int, j: int| 0 <= i < j < out@.len() implies !bytes_before(
            encode_utf8((#[trigger] out@[j])@),
            encode_utf8((#[trigger] out@[i])@),
        ) by {
            assert(text_at_most(found@, places@[i], places@[j]));
            lemma_bytes_before(encode_utf8(out@[i]@), encode_utf8(out@[j]@));
        }
    }
    out
}

/// The latest crash: the greatest name, without a look at the times of files,
/// which lie after a directory was copied.
pub fn latest_crash(names: &Vec<String>) -> (r: Option<String>)
    ensures
        r is Some <==> crashes_among(names@).len() > 0,
        r matches Some(name) ==> {
            &&& crashes_among(names@).contains(name)
            &&& forall|i: int|
                0 <= i < crashes_among(names@).len() ==> !bytes_before(
                    encode_utf8(name@),
                    encode_utf8((#[trigger] crashes_among(names@)[i])@),
                )
        },
{
    let mut files = crash_files(names);
    proof {
        crate::sorting::lemma_rearranged_members(files@, crashes_among(names@));
    }
    let ghost all = files@;
    let r = files.pop();
    proof {
        let among = crashes_among(names@);
        if r is Some {
            let name = r->0;
            let last = all.len() - 1;
            assert(all.contains(all[last]));
            assert forall|i: int| 0 <= i < among.len() implies !bytes_before(
                encode_utf8(name@),
                encode_utf8((#[trigger] among[i])@),
            ) by {
                assert(among.contains(among[i]));
                assert(all.contains(among[i]));
                let j = choose|j: int| 0 <= j < all.len() && all[j] == among[i];
                if j < last {
                    assert(!bytes_before(encode_utf8(all[last]@), encode_utf8(all[j]@)));
                } else {
                    lemma_bytes_before(encode_utf8(name@), encode_utf8(name@));
                }
            }
        }
    }
    r
}

/// Which files of crashes are too many: `gone` is to be deleted and `kept` stays.
pub open spec fn pruned(names: Seq<String>, gone: Seq<String>, kept: Seq<String>) -> bool {
    &&& (gone + kept).to_multiset() == crashes_among(names).to_multiset()
    &&& sorted_names(gone + kept)
    &&& kept.len() == (if crashes_among(names).len() < KEEP_FILES {
        crashes_among(names).len()
    } else {
        KEEP_FILES as nat
    })
}

/// The files of crashes to delete: all but the latest `KEEP_FILES`.
pub fn crashes_to_prune(names: &Vec<String>) -> (r: Vec<String>)
    ensures
        exists|kept: Seq<String>| #[trigger] pruned(names@, r@, kept),
{
    let mut files = crash_files(names);
    let ghost all = files@;
    proof {
        crate::sorting::lemma_rearranged_members(all, crashes_among(names@));
    }
    let extra: usize = if files.len() > KEEP_FILES {
        files.len() - KEEP_FILES
    } else {
        0
    };
    files.truncate(extra);
    proof {
        let kept = all.skip(extra as int);
        assert(files@ + kept =~= all);
        assert(pruned(names@, files@, kept));
    }
    files
}

/// Only files of crashes are ever deleted.
pub proof fn law_nothing_else_is_touched(
    names: Seq<String>,
    gone: Seq<String>,
    kept: Seq<String>,
    i: int,
)
    requires
        pruned(names, gone, kept),
        0 <= i < gone.len(),
    ensures
        is_crash(gone[i]@),
        names.contains(gone[i]),
{
    let all = gone + kept;
    let among = crashes_among(names);
    crate::sorting::lemma_rearranged_members(all, among);
    assert(all[i] == gone[i]);
    assert(all.contains(gone[i]));
    assert(among.contains(gone[i]));
    let p = |n: String| is_crash(n@);
    names.lemma_filter_contains_rev(p, gone[i]);
    names.lemma_filter_pred(p, choose|j: int| 0 <= j < among.len() && among[j] == gone[i]);
}

/// No file that is kept is older than one that is deleted.
pub proof fn law_the_newest_are_kept(
    names: Seq<String>,
    gone: Seq<String>,
    kept: Seq<String>,
    i: int,
    j: int,
)
    requires
        pruned(names, gone, kept),
        0 <= i < gone.len(),
        0 <= j < kept.len(),
    ensures
        !bytes_before(encode_utf8(kept[j]@), encode_utf8(gone[i]@)),
{
    let all = gone + kept;
    assert(all[i] == gone[i]);
    assert(all[gone.len() + j] == kept[j]);
}

// ---------------------------------------------------------------------------
// The names sort as time does
// ---------------------------------------------------------------------------
/// One moment by the clock on the wall comes before another.
pub open spec fn earlier(a: LocalTime, b: LocalTime) -> bool {
    a.year < b.year || (a.year == b.year && (a.month < b.month || (a.month == b.month && (a.day
        < b.day || (a.day == b.day && (a.hour < b.hour || (a.hour == b.hour && (a.minute < b.minute
        || (a.minute == b.minute && (a.second < b.second || (a.second == b.second && a.milli
        < b.milli)))))))))))
}

spec fn first_less(a: Seq<char>, b: Seq<char>, k: int) -> bool {
    &&& 0 <= k < a.len()
    &&& k < b.len()
    &&& forall|i: int| 0 <= i < k ==> a[i] == b[i]
    &&& (a[k] as u32) < (b[k] as u32)
}

spec fn plain(s: Seq<char>) -> bool {
    vstd::utf8::is_ascii_chars(s)
}

/// How many numbers a width has room for.
spec fn capacity(width: nat) -> nat
    decreases width,
{
    if width == 0 {
        1
    } else {
        10 * capacity((width - 1) as nat)
    }
}

proof fn lemma_digits(n: nat, width: nat)
    ensures
        digits(n, width).len() == width,
        plain(digits(n, width)),
    decreases width,
{
    if width > 0 {
        lemma_digits(n / 10, (width - 1) as nat);
    }
}

proof fn lemma_digits_less(a: nat, b: nat, width: nat) -> (k: int)
    requires
        a < b < capacity(width),
    ensures
        first_less(digits(a, width), digits(b, width), k),
    decreases width,
{
    lemma_digits(a, width);
    lemma_digits(b, width);
    if width == 0 {
        0
    } else {
        let w = (width - 1) as nat;
        lemma_digits(a / 10, w);
        lemma_digits(b / 10, w);
        let x = digits(a / 10, w);
        let y = digits(b / 10, w);
        if a / 10 < b / 10 {
            let k = lemma_digits_less(a / 10, b / 10, w);
            assert(first_less(digits(a, width), digits(b, width), k));
            k
        } else {
            assert(a / 10 == b / 10);
            assert(a % 10 < b % 10);
            assert(first_less(digits(a, width), digits(b, width), w as int));
            w as int
        }
    }
}

proof fn lemma_less_bytes(a: Seq<u8>, b: Seq<u8>, k: int)
    requires
        0 <= k < a.len(),
        k < b.len(),
        forall|i: int| 0 <= i < k ==> a[i] == b[i],
        a[k] < b[k],
    ensures
        bytes_before(a, b),
    decreases k,
{
    if k > 0 {
        lemma_less_bytes(a.drop_first(), b.drop_first(), k - 1);
    }
}

proof fn lemma_less_encoded(a: Seq<char>, b: Seq<char>, k: int)
    requires
        plain(a),
        plain(b),
        first_less(a, b, k),
    ensures
        bytes_before(encode_utf8(a), encode_utf8(b)),
{
    vstd::utf8::is_ascii_chars_encode_utf8(a);
    vstd::utf8::is_ascii_chars_encode_utf8(b);
    let x = encode_utf8(a);
    let y = encode_utf8(b);
    assert forall|i: int| 0 <= i < k implies x[i] == y[i] by {
        assert(a[i] == b[i]);
        assert(a[i] as u8 == x[i]);
        assert(b[i] as u8 == y[i]);
    }
    assert(a[k] as u8 == x[k] && b[k] as u8 == y[k]);
    assert('\0' <= a[k] <= '\u{7f}' && '\0' <= b[k] <= '\u{7f}');
    lemma_less_bytes(x, y, k);
}

proof fn lemma_names_are_plain(t: LocalTime)
    ensures
        plain(crash_name(t)),
{
    reveal_strlit("panic-");
    reveal_strlit(".log");
    lemma_digits(t.year as nat, 4);
    lemma_digits(t.month as nat, 2);
    lemma_digits(t.day as nat, 2);
    lemma_digits(t.hour as nat, 2);
    lemma_digits(t.minute as nat, 2);
    lemma_digits(t.second as nat, 2);
    lemma_digits(t.milli as nat, 3);
    let dash = seq!['-'];
    assert(plain(dash));
    assert(plain(seq!['_']));
    assert(plain(seq!['.']));
    assert(plain(FILE_PREFIX@));
    assert(plain(FILE_SUFFIX@));
    assert(plain(date_text(t)));
    assert(plain(clock_text(t, '-')));
    assert(plain(file_stamp(t)));
}

spec fn stands(name: Seq<char>, at: int, n: nat, width: nat) -> bool {
    forall|i: int| 0 <= i < width ==> #[trigger] name[at + i] == digits(n, width)[i]
}

/// Where the fields of a moment stand in a name.
spec fn laid_out(name: Seq<char>, t: LocalTime) -> bool {
    &&& name.len() == 33
    &&& forall|i: int| 0 <= i < 6 ==> name[i] == FILE_PREFIX@[i]
    &&& stands(name, 6, t.year as nat, 4)
    &&& name[10] == '-'
    &&& stands(name, 11, t.month as nat, 2)
    &&& name[13] == '-'
    &&& stands(name, 14, t.day as nat, 2)
    &&& name[16] == '_'
    &&& stands(name, 17, t.hour as nat, 2)
    &&& name[19] == '-'
    &&& stands(name, 20, t.minute as nat, 2)
    &&& name[22] == '-'
    &&& stands(name, 23, t.second as nat, 2)
    &&& name[25] == '.'
    &&& stands(name, 26, t.milli as nat, 3)
}

/// The names of two moments are the same up to a place.
spec fn agree(x: Seq<char>, y: Seq<char>, n: int) -> bool {
    forall|i: int| 0 <= i < n ==> #[trigger] x[i] == y[i]
}

proof fn lemma_agree_longer(x: Seq<char>, y: Seq<char>, at: int, n: nat, width: nat)
    requires
        0 <= at,
        agree(x, y, at),
        stands(x, at, n, width),
        stands(y, at, n, width),
    ensures
        agree(x, y, at + width),
{
    assert forall|i: int| 0 <= i < at + width implies #[trigger] x[i] == y[i] by {
        if i >= at {
            assert(x[at + (i - at)] == digits(n, width)[i - at]);
            assert(y[at + (i - at)] == digits(n, width)[i - at]);
        }
    }
}

proof fn lemma_agree_then_less(
    x: Seq<char>,
    y: Seq<char>,
    at: int,
    p: nat,
    q: nat,
    width: nat,
) -> (k: int)
    requires
        0 <= at,
        at + width <= x.len(),
        at + width <= y.len(),
        agree(x, y, at),
        stands(x, at, p, width),
        stands(y, at, q, width),
        p < q < capacity(width),
    ensures
        first_less(x, y, k),
{
    let k = lemma_digits_less(p, q, width);
    lemma_digits(p, width);
    lemma_digits(q, width);
    assert forall|i: int| 0 <= i < at + k implies x[i] == y[i] by {
        if i >= at {
            assert(x[at + (i - at)] == digits(p, width)[i - at]);
            assert(y[at + (i - at)] == digits(q, width)[i - at]);
        }
    }
    assert(x[at + k] == digits(p, width)[k]);
    assert(y[at + k] == digits(q, width)[k]);
    at + k
}

proof fn lemma_earlier_is_less(x: Seq<char>, y: Seq<char>, a: LocalTime, b: LocalTime) -> (k: int)
    requires
        a.valid(),
        b.valid(),
        earlier(a, b),
        laid_out(x, a),
        laid_out(y, b),
    ensures
        first_less(x, y, k),
{
    assert(capacity(1) == 10 * capacity(0));
    assert(capacity(2) == 100);
    assert(capacity(3) == 1000);
    assert(capacity(4) == 10000);
    assert(agree(x, y, 6));
    if a.year < b.year {
        lemma_agree_then_less(x, y, 6, a.year as nat, b.year as nat, 4)
    } else {
        lemma_agree_longer(x, y, 6, a.year as nat, 4);
        assert(agree(x, y, 11));
        if a.month < b.month {
            lemma_agree_then_less(x, y, 11, a.month as nat, b.month as nat, 2)
        } else {
            lemma_agree_longer(x, y, 11, a.month as nat, 2);
            assert(agree(x, y, 14));
            if a.day < b.day {
                lemma_agree_then_less(x, y, 14, a.day as nat, b.day as nat, 2)
            } else {
                lemma_agree_longer(x, y, 14, a.day as nat, 2);
                assert(agree(x, y, 17));
                if a.hour < b.hour {
                    lemma_agree_then_less(x, y, 17, a.hour as nat, b.hour as nat, 2)
                } else {
                    lemma_agree_longer(x, y, 17, a.hour as nat, 2);
                    assert(agree(x, y, 20));
                    if a.minute < b.minute {
                        lemma_agree_then_less(x, y, 20, a.minute as nat, b.minute as nat, 2)
                    } else {
                        lemma_agree_longer(x, y, 20, a.minute as nat, 2);
                        assert(agree(x, y, 23));
                        if a.second < b.second {
                            lemma_agree_then_less(x, y, 23, a.second as nat, b.second as nat, 2)
                        } else {
                            lemma_agree_longer(x, y, 23, a.second as nat, 2);
                            assert(agree(x, y, 26));
                            lemma_agree_then_less(x, y, 26, a.milli as nat, b.milli as nat, 3)
                        }
                    }
                }
            }
        }
    }
}

proof fn lemma_layout(t: LocalTime)
    ensures
        laid_out(crash_name(t), t),
{
    reveal_strlit("panic-");
    reveal_strlit(".log");
    lemma_digits(t.year as nat, 4);
    lemma_digits(t.month as nat, 2);
    lemma_digits(t.day as nat, 2);
    lemma_digits(t.hour as nat, 2);
    lemma_digits(t.minute as nat, 2);
    lemma_digits(t.second as nat, 2);
    lemma_digits(t.milli as nat, 3);
    let date = date_text(t);
    let clock = clock_text(t, '-');
    assert(date.len() == 10 && clock.len() == 12);
    let name = crash_name(t);
    assert forall|i: int| 6 <= i < 16 implies #[trigger] name[i] == date[i - 6] by {}
    assert forall|i: int| 17 <= i < 29 implies #[trigger] name[i] == clock[i - 17] by {}
}

/// Names sort as time does: of two crashes the earlier has the lesser name. On
/// this rest both the search for the latest crash and the cleaning up.
pub proof fn law_names_sort_as_time(a: LocalTime, b: LocalTime)
    requires
        a.valid(),
        b.valid(),
        earlier(a, b),
    ensures
        bytes_before(encode_utf8(crash_name(a)), encode_utf8(crash_name(b))),
{
    lemma_names_are_plain(a);
    lemma_names_are_plain(b);
    lemma_layout(a);
    lemma_layout(b);
    let k = lemma_earlier_is_less(crash_name(a), crash_name(b), a, b);
    lemma_less_encoded(crash_name(a), crash_name(b), k);
}

/// The file of a crash is known as one, and its name has no colon.
pub proof fn law_a_crash_has_the_name_of_one(t: LocalTime)
    requires
        t.valid(),
    ensures
        is_crash(crash_name(t)),
        !crash_name(t).contains(':'),
{
    reveal_strlit("panic-");
    reveal_strlit(".log");
    let name = crash_name(t);
    let n = FILE_PREFIX@.len() as int;
    let m = FILE_SUFFIX@.len() as int;
    assert(FILE_PREFIX@ =~= name.subrange(0, n));
    assert(FILE_SUFFIX@ =~= name.subrange(name.len() - m, name.len() as int));
    lemma_no_colon(t);
}

proof fn lemma_digits_no_colon(n: nat, width: nat)
    ensures
        !digits(n, width).contains(':'),
    decreases width,
{
    if width > 0 {
        lemma_digits_no_colon(n / 10, (width - 1) as nat);
        lemma_digits(n, width);
        lemma_digits(n / 10, (width - 1) as nat);
        let front = digits(n / 10, (width - 1) as nat);
        let s = digits(n, width);
        if s.contains(':') {
            let i = choose|i: int| 0 <= i < s.len() && s[i] == ':';
            if i < front.len() {
                assert(front[i] == ':');
            }
        }
    }
}

proof fn lemma_join_no_colon(a: Seq<char>, b: Seq<char>)
    requires
        !a.contains(':'),
        !b.contains(':'),
    ensures
        !(a + b).contains(':'),
{
    let s = a + b;
    if s.contains(':') {
        let i = choose|i: int| 0 <= i < s.len() && s[i] == ':';
        if i < a.len() {
            assert(a[i] == ':');
        } else {
            assert(b[i - a.len()] == ':');
        }
    }
}

proof fn lemma_no_colon(t: LocalTime)
    ensures
        !crash_name(t).contains(':'),
{
    reveal_strlit("panic-");
    reveal_strlit(".log");
    let d1 = digits(t.year as nat, 4);
    let d2 = digits(t.month as nat, 2);
    let d3 = digits(t.day as nat, 2);
    let d4 = digits(t.hour as nat, 2);
    let d5 = digits(t.minute as nat, 2);
    let d6 = digits(t.second as nat, 2);
    let d7 = digits(t.milli as nat, 3);
    lemma_digits_no_colon(t.year as nat, 4);
    lemma_digits_no_colon(t.month as nat, 2);
    lemma_digits_no_colon(t.day as nat, 2);
    lemma_digits_no_colon(t.hour as nat, 2);
    lemma_digits_no_colon(t.minute as nat, 2);
    lemma_digits_no_colon(t.second as nat, 2);
    lemma_digits_no_colon(t.milli as nat, 3);
    let dash = seq!['-'];
    let low = seq!['_'];
    let dot = seq!['.'];
    assert(!dash.contains(':') && !low.contains(':') && !dot.contains(':'));
    lemma_join_no_colon(d1, dash);
    lemma_join_no_colon(d1 + dash, d2);
    lemma_join_no_colon(d1 + dash + d2, dash);
    lemma_join_no_colon(d1 + dash + d2 + dash, d3);
    lemma_join_no_colon(d4, dash);
    lemma_join_no_colon(d4 + dash, d5);
    lemma_join_no_colon(d4 + dash + d5, dash);
    lemma_join_no_colon(d4 + dash + d5 + dash, d6);
    lemma_join_no_colon(d4 + dash + d5 + dash + d6, dot);
    lemma_join_no_colon(d4 + dash + d5 + dash + d6 + dot, d7);
    lemma_join_no_colon(date_text(t), low);
    lemma_join_no_colon(date_text(t) + low, clock_text(t, '-'));
    lemma_join_no_colon(FILE_PREFIX@, file_stamp(t));
    lemma_join_no_colon(FILE_PREFIX@ + file_stamp(t), FILE_SUFFIX@);
}

/// The calendar: seven months of thirty-one days, four of thirty, and February,
/// which has one day more in every fourth year, but not in every hundredth,
/// unless it is a four hundredth.
pub proof fn law_days_of_the_months(year: int)
    ensures
        days_in(year, 1) == 31 && days_in(year, 3) == 31 && days_in(year, 5) == 31 && days_in(
            year,
            7,
        ) == 31 && days_in(year, 8) == 31 && days_in(year, 10) == 31 && days_in(year, 12) == 31,
        days_in(year, 4) == 30 && days_in(year, 6) == 30 && days_in(year, 9) == 30 && days_in(
            year,
            11,
        ) == 30,
        year % 400 == 0 ==> days_in(year, 2) == 29,
        year % 100 == 0 && year % 400 != 0 ==> days_in(year, 2) == 28,
        year % 4 == 0 && year % 100 != 0 ==> days_in(year, 2) == 29,
        year % 4 != 0 ==> days_in(year, 2) == 28,
{
}

/// Moments that are valid: of the years of four digits, by the calendar and the
/// clock, less than a day away from UTC.
pub proof fn law_moments_of_the_clock(t: LocalTime)
    ensures
        t.valid() ==> t.year <= 9999 && t.year >= 0 && t.month >= 1 && t.month <= 12 && t.day >= 1
            && t.day <= 31 && t.hour <= 23 && t.minute <= 59 && t.second <= 59 && t.milli <= 999,
        t.valid() && t.month == 2 ==> t.day <= 29,
        0 <= t.year <= 9999 && 1 <= t.month <= 12 && 1 <= t.day <= 28 && t.hour <= 23 && t.minute
            <= 59 && t.second <= 59 && t.milli <= 999 && -86_400 < t.offset_seconds < 86_400
            ==> t.valid(),
{
}

/// At most twenty files of crashes stay, and fewer only where there are no more.
pub proof fn law_twenty_files_stay(names: Seq<String>, gone: Seq<String>, kept: Seq<String>)
    requires
        pruned(names, gone, kept),
    ensures
        kept.len() <= 20,
        gone.len() > 0 ==> kept.len() == 20,
        gone.len() + kept.len() == crashes_among(names).len(),
{
    broadcast use vstd::seq_lib::group_to_multiset_ensures;

    let all = gone + kept;
    assert(all.len() == all.to_multiset().len());
    assert(crashes_among(names).len() == crashes_among(names).to_multiset().len());
}

/// The file of a crash is known by its name: it begins with `panic-` and ends
/// with `.log`.
pub proof fn law_files_of_crashes_by_name(name: Seq<char>)
    ensures
        is_crash(name) <==> name.len() >= 6 && name.take(6) == "panic-"@ && name.skip(
            name.len() - 4,
        ) == ".log"@,
{
    reveal_strlit("panic-");
    reveal_strlit(".log");
    assert("panic-"@.len() == 6 && ".log"@.len() == 4);
    if name.len() >= 6 {
        assert(name.take(6) =~= name.subrange(0, 6));
        assert(name.skip(name.len() - 4) =~= name.subrange(name.len() - 4, name.len() as int));
    }
}

/// A record of a crash ends with the reason and the trace, each on its own; a
/// reason and a thread that are not known are said to be so.
pub proof fn law_record_of_a_crash(crash: Crash) -> (head: Seq<char>)
    ensures
        record_text(crash) == head + " | thread "@ + or_else(crash.thread, "<unnamed>"@)
            + " ===\n"@ + location_text(crash.location) + or_else(crash.message, "<unknown reason>"@)
            + "\n\n"@ + crash.trace@ + "\n"@,
        head == "=== "@ + header_stamp(crash.when) + " | mikui "@ + crash.version@ + " | "@
            + crash.os@,
        crash.message matches Some(text) ==> or_else(crash.message, "<unknown reason>"@) == text@,
        crash.message is None ==> or_else(crash.message, "<unknown reason>"@)
            == "<unknown reason>"@,
        crash.location matches Some((file, line, column)) ==> location_text(crash.location)
            == "panicked at "@ + file@ + ":"@ + decimal(line as nat) + ":"@ + decimal(column as nat)
            + "\n"@,
{
    "=== "@ + header_stamp(crash.when) + " | mikui "@ + crash.version@ + " | "@ + crash.os@
}

/// A distance from UTC is written with its sign, hours and minutes.
pub proof fn law_distance_from_utc(hours: int, minutes: int)
    requires
        0 <= hours < 24,
        0 <= minutes < 60,
    ensures
        zone_text(hours * 3600 + minutes * 60) == seq!['+'] + digits(hours as nat, 2) + seq![':']
            + digits(minutes as nat, 2),
        hours + minutes > 0 ==> zone_text(-(hours * 3600 + minutes * 60)) == seq!['-'] + digits(
            hours as nat,
            2,
        ) + seq![':'] + digits(minutes as nat, 2),
{
    let seconds = hours * 3600 + minutes * 60;
    assert((seconds + 30) / 60 == hours * 60 + minutes);
    assert((hours * 60 + minutes) / 60 == hours);
    assert((hours * 60 + minutes) % 60 == minutes);
}

/// Numbers of a fixed width have that many digits, the lowest last.
pub proof fn law_digits_of_a_fixed_width(n: nat, width: nat)
    ensures
        digits(n, width).len() == width,
        width > 0 ==> digits(n, width).last() == "0123456789"@[n as int % 10],
        width > 0 ==> digits(n, width).drop_last() == digits(n / 10, (width - 1) as nat),
{
    reveal_strlit("0123456789");
    lemma_digits(n, width);
    if width > 0 {
        assert(digits(n, width).drop_last() =~= digits(n / 10, (width - 1) as nat));
    }
}

/// The time of a crash as its record shows it: the date by year, month and day,
/// the clock down to the thousandth of a second, and the distance from UTC.
pub proof fn law_time_of_a_record(t: LocalTime)
    ensures
        header_stamp(t) == digits(t.year as nat, 4) + seq!['-'] + digits(t.month as nat, 2) + seq![
            '-',
        ] + digits(t.day as nat, 2) + seq![' '] + digits(t.hour as nat, 2) + seq![':'] + digits(
            t.minute as nat,
            2,
        ) + seq![':'] + digits(t.second as nat, 2) + seq!['.'] + digits(t.milli as nat, 3) + seq![
            ' ',
        ] + zone_text(t.offset_seconds as int),
{
    assert(header_stamp(t) =~= digits(t.year as nat, 4) + seq!['-'] + digits(t.month as nat, 2)
        + seq!['-'] + digits(t.day as nat, 2) + seq![' '] + digits(t.hour as nat, 2) + seq![':']
        + digits(t.minute as nat, 2) + seq![':'] + digits(t.second as nat, 2) + seq!['.'] + digits(
        t.milli as nat,
        3,
    ) + seq![' '] + zone_text(t.offset_seconds as int));
}

} // verus!

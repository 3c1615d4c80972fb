//! Logging service: formats log records for the log file and, in a
//! field-separated structured form, for the control surface. The service is
//! constructed once at startup and passed by reference to every component
//! that logs; the surrounding program drains the formatted lines and writes
//! them to their sinks.

use vstd::prelude::*;

use chrono::Timelike;

use crate::strutil::{ascii_vec_to_string, dec_str, digit_char};

verus! {

/// Color index for infrastructure prefixes in the control surface.
pub const COLOR_GRAY: u8 = 1;

/// Color index for per-bot prefixes in the control surface.
pub const COLOR_BLUE: u8 = 2;

/// The logging service: pending formatted lines and the registered
/// prefix-to-color table.
pub struct Logger {
    /// Plain-text lines destined for the log file, oldest first.
    pub file_lines: Vec<String>,
    /// Structured lines destined for the control surface, oldest first.
    pub tui_lines: Vec<String>,
    /// Registered prefixes and their color indices; keys are unique.
    pub prefixes: Vec<(String, u8)>,
}

/// The color registered for `p`, or 0 when `p` is not registered.
pub open spec fn lookup_color(s: Seq<(String, u8)>, p: Seq<char>) -> u8
    decreases s.len(),
{
    if s.len() == 0 {
        0
    } else if s[0].0@ == p {
        s[0].1
    } else {
        lookup_color(s.drop_first(), p)
    }
}

/// A two-digit, zero-padded decimal rendering (for `n < 100`).
pub open spec fn two_dig(n: nat) -> Seq<char> {
    seq![digit_char(n / 10), digit_char(n % 10)]
}

/// An `HH:MM:SS` timestamp.
pub open spec fn ts_spec(h: nat, m: nat, s: nat) -> Seq<char> {
    two_dig(h) + seq![':'] + two_dig(m) + seq![':'] + two_dig(s)
}

/// The plain file form of a record: `[ts] [level] msg`, with the prefix in
/// its own bracket when there is one.
pub open spec fn file_line_spec(
    ts: Seq<char>,
    level: Seq<char>,
    prefix: Seq<char>,
    msg: Seq<char>,
) -> Seq<char> {
    if prefix.len() == 0 {
        seq!['['] + ts + seq![']', ' ', '['] + level + seq![']', ' '] + msg
    } else {
        seq!['['] + ts + seq![']', ' ', '['] + level + seq![']', ' ', '['] + prefix + seq![
            ']',
            ' ',
        ] + msg
    }
}

/// The structured control-surface form of a record, with `\x1f` between the
/// level, prefix, color, timestamp and message fields.
pub open spec fn tui_line_spec(
    level: Seq<char>,
    prefix: Seq<char>,
    color: u8,
    ts: Seq<char>,
    msg: Seq<char>,
) -> Seq<char> {
    level + seq!['\u{1f}'] + prefix + seq!['\u{1f}'] + dec_str(color as nat) + seq!['\u{1f}'] + ts
        + seq!['\u{1f}'] + msg
}

/// A `write_log` call appended one line to each sink, formatted from the
/// given fields and some valid wall-clock timestamp.
pub open spec fn logged(
    post: Logger,
    pre: Logger,
    level: Seq<char>,
    prefix: Seq<char>,
    color: u8,
    msg: Seq<char>,
) -> bool {
    &&& exists|h: nat, m: nat, s: nat|
        {
            &&& h < 24
            &&& m < 60
            &&& s < 60
            &&& post.file_lines@.len() == pre.file_lines@.len() + 1
            &&& post.file_lines@.drop_last() == pre.file_lines@
            &&& post.file_lines@.last()@ == file_line_spec(ts_spec(h, m, s), level, prefix, msg)
            &&& post.tui_lines@.len() == pre.tui_lines@.len() + 1
            &&& post.tui_lines@.drop_last() == pre.tui_lines@
            &&& post.tui_lines@.last()@ == tui_line_spec(
                level,
                prefix,
                color,
                ts_spec(h, m, s),
                msg,
            )
        }
    &&& post.prefixes == pre.prefixes
}

/// Reads the wall clock.
/// Relies on chrono's `Local::now` and the `Timelike` accessors, whose
/// documentation bounds the hour by 24 and the minute and second by 60.
#[verifier::external_body]
fn now_hms() -> (r: (u8, u8, u8))
    ensures
        r.0 < 24,
        r.1 < 60,
        r.2 < 60,
{
    let t = chrono::Local::now();
    (t.hour() as u8, t.minute() as u8, t.second() as u8)
}

/// Renders `n` as two zero-padded decimal digits.
fn push_two_dig(out: &mut Vec<u8>, n: u8)
    requires
        n < 100,
    ensures
        final(out)@.len() == old(out)@.len() + 2,
        forall|i: int| 0 <= i < old(out)@.len() ==> final(out)@[i] == old(out)@[i],
        final(out)@[final(out)@.len() - 2] == (48 + n / 10) as u8,
        final(out)@[final(out)@.len() - 1] == (48 + n % 10) as u8,
{
    out.push(48 + n / 10);
    out.push(48 + n % 10);
}

/// Formats `h:m:s` as `HH:MM:SS`.
fn format_hms(h: u8, m: u8, s: u8) -> (r: String)
    requires
        h < 24,
        m < 60,
        s < 60,
    ensures
        r@ == ts_spec(h as nat, m as nat, s as nat),
{
    let mut out: Vec<u8> = Vec::new();
    push_two_dig(&mut out, h);
    out.push(58);
    push_two_dig(&mut out, m);
    out.push(58);
    push_two_dig(&mut out, s);
    proof {
        assert(forall|i: int| 0 <= i < out@.len() ==> out@[i] < 128);
    }
    let r = ascii_vec_to_string(out);
    proof {
        assert(r@ =~= ts_spec(h as nat, m as nat, s as nat));
    }
    r
}

impl Logger {
    /// Prefix keys are registered at most once.
    pub open spec fn wf(&self) -> bool {
        forall|i: int, j: int|
            0 <= i < j < self.prefixes@.len() ==> (#[trigger] self.prefixes@[i]).0@ != (
            #[trigger] self.prefixes@[j]).0@
    }

    /// A fresh service: nothing pending, nothing registered.
    pub fn new() -> (r: Logger)
        ensures
            r.file_lines@ == Seq::<String>::empty(),
            r.tui_lines@ == Seq::<String>::empty(),
            r.prefixes@ == Seq::<(String, u8)>::empty(),
            r.wf(),
    {
        Logger { file_lines: Vec::new(), tui_lines: Vec::new(), prefixes: Vec::new() }
    }
}

/// Register a prefix with a color. Subsequent prefixed log calls look the
/// color up here; re-registering a prefix replaces its color.
pub fn register_prefix(l: &mut Logger, prefix: &str, color: u8)
    requires
        old(l).wf(),
    ensures
        final(l).wf(),
        final(l).file_lines == old(l).file_lines,
        final(l).tui_lines == old(l).tui_lines,
        lookup_color(final(l).prefixes@, prefix@) == color,
        forall|p: Seq<char>|
            p != prefix@ ==> lookup_color(final(l).prefixes@, p) == lookup_color(
                old(l).prefixes@,
                p,
            ),
{
    let n = l.prefixes.len();
    let mut i: usize = 0;
    while i < n
        invariant
            old(l).wf(),
            l == old(l),
            n == l.prefixes@.len(),
            i <= n,
            forall|k: int| 0 <= k < i ==> (#[trigger] l.prefixes@[k]).0@ != prefix@,
        decreases n - i,
    {
        if crate::strutil::str_eq(l.prefixes[i].0.as_str(), prefix) {
            let key = l.prefixes[i].0.clone();
            l.prefixes.set(i, (key, color));
            proof {
                lemma_lookup_update(old(l).prefixes@, l.prefixes@, i as int, prefix@, color);
            }
            return ;
        }
        i = i + 1;
    }
    l.prefixes.push((prefix.to_owned(), color));
    proof {
        let pre = old(l).prefixes@;
        let kv = l.prefixes@.last();
        assert(l.prefixes@ =~= pre.push(kv));
        assert(!has_key(pre, prefix@));
        lemma_lookup_push(pre, kv, prefix@);
        assert forall|p: Seq<char>| p != prefix@ implies lookup_color(l.prefixes@, p)
            == lookup_color(pre, p) by {
            lemma_lookup_push(pre, kv, p);
            if !has_key(pre, p) {
                lemma_lookup_absent(pre, p);
            }
        }
    }
}

/// Updating the entry that holds key `p` changes only `p`'s color.
proof fn lemma_lookup_update(pre: Seq<(String, u8)>, post: Seq<(String, u8)>, i: int, p: Seq<char>, color: u8)
    requires
        0 <= i < pre.len(),
        post.len() == pre.len(),
        pre[i].0@ == p,
        post[i].0@ == p,
        post[i].1 == color,
        forall|k: int| 0 <= k < pre.len() && k != i ==> post[k] == pre[k],
        forall|k: int| 0 <= k < i ==> (#[trigger] pre[k]).0@ != p,
    ensures
        lookup_color(post, p) == color,
        forall|q: Seq<char>| q != p ==> lookup_color(post, q) == lookup_color(pre, q),
    decreases pre.len(),
{
    if i == 0 {
        assert forall|q: Seq<char>| q != p implies lookup_color(post, q) == lookup_color(
            pre,
            q,
        ) by {
            assert(post.drop_first() =~= pre.drop_first());
            assert(lookup_color(post, q) == lookup_color(post.drop_first(), q));
            assert(lookup_color(pre, q) == lookup_color(pre.drop_first(), q));
        }
    } else {
        assert(pre[0].0@ != p);
        assert(post[0] == pre[0]);
        assert forall|k: int| 0 <= k < i - 1 implies (#[trigger] pre.drop_first()[k]).0@ != p by {
            assert(pre.drop_first()[k] == pre[k + 1]);
        }
        assert forall|k: int|
            0 <= k < pre.drop_first().len() && k != i - 1 implies #[trigger] post.drop_first()[k]
                == pre.drop_first()[k] by {
            assert(post.drop_first()[k] == post[k + 1]);
            assert(pre.drop_first()[k] == pre[k + 1]);
        }
        assert(pre.drop_first()[i - 1] == pre[i]);
        assert(post.drop_first()[i - 1] == post[i]);
        lemma_lookup_update(pre.drop_first(), post.drop_first(), i - 1, p, color);
        assert(lookup_color(post, p) == lookup_color(post.drop_first(), p));
        assert forall|q: Seq<char>| q != p implies lookup_color(post, q) == lookup_color(
            pre,
            q,
        ) by {
            if pre[0].0@ != q {
                assert(lookup_color(post, q) == lookup_color(post.drop_first(), q));
                assert(lookup_color(pre, q) == lookup_color(pre.drop_first(), q));
            }
        }
    }
}

/// Whether some entry holds key `q`.
pub open spec fn has_key(s: Seq<(String, u8)>, q: Seq<char>) -> bool {
    exists|k: int| 0 <= k < s.len() && (#[trigger] s[k]).0@ == q
}

/// A key that no entry holds looks up to 0.
proof fn lemma_lookup_absent(s: Seq<(String, u8)>, q: Seq<char>)
    requires
        !has_key(s, q),
    ensures
        lookup_color(s, q) == 0,
    decreases s.len(),
{
    if s.len() > 0 {
        assert(s[0].0@ != q);
        assert forall|k: int|
            0 <= k < s.drop_first().len() implies (#[trigger] s.drop_first()[k]).0@ != q by {
            assert(s.drop_first()[k] == s[k + 1]);
        }
        lemma_lookup_absent(s.drop_first(), q);
    }
}

/// Lookup in `s.push(kv)`: the old entries win; a fresh key finds `kv`.
proof fn lemma_lookup_push(s: Seq<(String, u8)>, kv: (String, u8), q: Seq<char>)
    ensures
        lookup_color(s.push(kv), q) == (if has_key(s, q) {
            lookup_color(s, q)
        } else if kv.0@ == q {
            kv.1
        } else {
            0 as u8
        }),
    decreases s.len(),
{
    if s.len() == 0 {
        assert(s.push(kv)[0] == kv);
        assert(s.push(kv).drop_first() =~= Seq::<(String, u8)>::empty());
        assert(!has_key(s, q));
        if kv.0@ == q {
            assert(lookup_color(s.push(kv), q) == kv.1);
        } else {
            assert(lookup_color(s.push(kv), q) == lookup_color(s.push(kv).drop_first(), q));
            assert(lookup_color(s.push(kv), q) == 0);
        }
    } else {
        assert(s.push(kv)[0] == s[0]);
        assert(s.push(kv).drop_first() =~= s.drop_first().push(kv));
        lemma_lookup_push(s.drop_first(), kv, q);
        if s[0].0@ == q {
            assert(has_key(s, q));
            assert(lookup_color(s.push(kv), q) == s[0].1);
            assert(lookup_color(s, q) == s[0].1);
        } else {
            assert(lookup_color(s.push(kv), q) == lookup_color(s.drop_first().push(kv), q));
            assert(lookup_color(s, q) == lookup_color(s.drop_first(), q));
            if has_key(s, q) {
                let k = choose|k: int| 0 <= k < s.len() && (#[trigger] s[k]).0@ == q;
                assert(k != 0);
                assert(s.drop_first()[k - 1] == s[k]);
                assert(has_key(s.drop_first(), q));
            } else {
                assert(!has_key(s.drop_first(), q)) by {
                    if has_key(s.drop_first(), q) {
                        let k = choose|k: int|
                            0 <= k < s.drop_first().len() && (#[trigger] s.drop_first()[k]).0@
                                == q;
                        assert(s[k + 1] == s.drop_first()[k]);
                        assert(has_key(s, q));
                    }
                }
            }
        }
    }
}

/// Look up the color registered for `prefix`.
fn color_of(l: &Logger, prefix: &str) -> (r: u8)
    ensures
        r == lookup_color(l.prefixes@, prefix@),
{
    let n = l.prefixes.len();
    let mut i: usize = 0;
    proof {
        assert(l.prefixes@.skip(0) =~= l.prefixes@);
    }
    while i < n
        invariant
            n == l.prefixes@.len(),
            i <= n,
            lookup_color(l.prefixes@, prefix@) == lookup_color(l.prefixes@.skip(i as int), prefix@),
        decreases n - i,
    {
        proof {
            assert(l.prefixes@.skip(i as int).drop_first() =~= l.prefixes@.skip(i as int + 1));
            assert(l.prefixes@.skip(i as int)[0] == l.prefixes@[i as int]);
        }
        if crate::strutil::str_eq(l.prefixes[i].0.as_str(), prefix) {
            return l.prefixes[i].1;
        }
        i = i + 1;
    }
    proof {
        assert(l.prefixes@.skip(n as int) =~= Seq::<(String, u8)>::empty());
    }
    0
}

/// Format one record and append it to both pending sinks. The structured
/// line separates its fields with `\x1f`.
fn write_log(l: &mut Logger, level: &str, prefix: &str, color: u8, msg: &str)
    ensures
        logged(*final(l), *old(l), level@, prefix@, color, msg@),
{
    let (h, m, s) = now_hms();
    let ts = format_hms(h, m, s);

    let mut file_line = String::new();
    file_line.append("[");
    file_line.append(ts.as_str());
    file_line.append("] [");
    file_line.append(level);
    file_line.append("] ");
    if prefix.unicode_len() > 0 {
        file_line.append("[");
        file_line.append(prefix);
        file_line.append("] ");
    }
    file_line.append(msg);

    let mut tui_line = String::new();
    tui_line.append(level);
    tui_line.append("\u{1f}");
    tui_line.append(prefix);
    tui_line.append("\u{1f}");
    let color_str = crate::strutil::u64_to_string(color as u64);
    tui_line.append(color_str.as_str());
    tui_line.append("\u{1f}");
    tui_line.append(ts.as_str());
    tui_line.append("\u{1f}");
    tui_line.append(msg);

    proof {
        reveal_strlit("[");
        reveal_strlit("] [");
        reveal_strlit("] ");
        reveal_strlit("\u{1f}");
        assert(file_line@ =~= file_line_spec(
            ts_spec(h as nat, m as nat, s as nat),
            level@,
            prefix@,
            msg@,
        ));
        assert(tui_line@ =~= tui_line_spec(
            level@,
            prefix@,
            color,
            ts_spec(h as nat, m as nat, s as nat),
            msg@,
        ));
    }
    let ghost pre = *l;
    l.file_lines.push(file_line);
    l.tui_lines.push(tui_line);
    proof {
        assert(l.file_lines@.drop_last() =~= pre.file_lines@);
        assert(l.tui_lines@.drop_last() =~= pre.tui_lines@);
    }
}

/// Log an unprefixed informational message.
pub fn info(l: &mut Logger, msg: &str)
    ensures
        logged(*final(l), *old(l), "INFO"@, ""@, 0, msg@),
{
    write_log(l, "INFO", "", 0, msg)
}

/// Log an unprefixed warning.
pub fn warn(l: &mut Logger, msg: &str)
    ensures
        logged(*final(l), *old(l), "WARN"@, ""@, 0, msg@),
{
    write_log(l, "WARN", "", 0, msg)
}

/// Log an unprefixed error.
pub fn error(l: &mut Logger, msg: &str)
    ensures
        logged(*final(l), *old(l), "ERROR"@, ""@, 0, msg@),
{
    write_log(l, "ERROR", "", 0, msg)
}

/// Log an informational message under a registered prefix; the color comes
/// from the registration, 0 when unregistered.
pub fn info_p(l: &mut Logger, prefix: &str, msg: &str)
    ensures
        logged(*final(l), *old(l), "INFO"@, prefix@, lookup_color(old(l).prefixes@, prefix@), msg@),
{
    let color = color_of(l, prefix);
    write_log(l, "INFO", prefix, color, msg)
}

/// Log a warning under a registered prefix.
pub fn warn_p(l: &mut Logger, prefix: &str, msg: &str)
    ensures
        logged(*final(l), *old(l), "WARN"@, prefix@, lookup_color(old(l).prefixes@, prefix@), msg@),
{
    let color = color_of(l, prefix);
    write_log(l, "WARN", prefix, color, msg)
}

/// Log an error under a registered prefix.
pub fn error_p(l: &mut Logger, prefix: &str, msg: &str)
    ensures
        logged(*final(l), *old(l), "ERROR"@, prefix@, lookup_color(old(l).prefixes@, prefix@), msg@),
{
    let color = color_of(l, prefix);
    write_log(l, "ERROR", prefix, color, msg)
}

} // verus!
